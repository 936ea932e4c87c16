//! What holds of reading and writing text: trimming, splitting, numbers, amounts,
//! tickers, query strings and flags.

use vstd::prelude::*;
use vstd::utf8::*;

use crate::amounts;
use crate::cli;
use crate::cli::FlagError;
use crate::numbers;
use crate::params;
use crate::text;
use crate::ticker;
use crate::web;

verus! {

// --- trimming and splitting -------------------------------------------------------------

/// Whether every character is white space.
pub open spec fn blank(s: Seq<char>) -> bool {
    forall|i: int| 0 <= i < s.len() ==> text::is_space(#[trigger] s[i])
}

/// White space is what Unicode counts as such: 25 characters.
pub proof fn law_white_space(c: char)
    ensures
        text::is_space(c) == ({
            let n = c as u32 as int;
            ||| 8 < n && n < 14
            ||| n == 32 || n == 133 || n == 160 || n == 5_760
            ||| 8_191 < n && n < 8_203
            ||| n == 8_232 || n == 8_233 || n == 8_239 || n == 8_287 || n == 12_288
        }),
{
}

/// Trimming takes white space away at both ends and nothing else: what is left begins and
/// ends with something else, and the text is that with white space around it.
pub proof fn law_trimmed(s: Seq<char>) -> (cut: (Seq<char>, Seq<char>))
    ensures
        s == cut.0 + text::trimmed(s) + cut.1,
        blank(cut.0),
        blank(cut.1),
        text::trimmed(s).len() > 0 ==> !text::is_space(text::trimmed(s)[0]) && !text::is_space(
            text::trimmed(s).last(),
        ),
{
    let e = lemma_trim_end(s);
    let t = text::trim_end(s);
    let b = lemma_trim_start(t);
    let u = text::trim_start(t);
    assert(s =~= b + u + e);
    if u.len() > 0 {
        assert(t.last() == u.last());
    }
    (b, e)
}

proof fn lemma_trim_end(s: Seq<char>) -> (e: Seq<char>)
    ensures
        s == text::trim_end(s) + e,
        blank(e),
        text::trim_end(s).len() > 0 ==> !text::is_space(text::trim_end(s).last()),
    decreases s.len(),
{
    if s.len() == 0 || !text::is_space(s.last()) {
        assert(s =~= s + Seq::<char>::empty());
        Seq::empty()
    } else {
        let d = lemma_trim_end(s.drop_last());
        let e = d.push(s.last());
        let t = text::trim_end(s.drop_last());
        assert(s.drop_last() == t + d);
        assert(s =~= s.drop_last().push(s.last()));
        assert((t + d).push(s.last()) =~= t + e);
        assert forall|i: int| 0 <= i < e.len() implies text::is_space(#[trigger] e[i]) by {
            if i < d.len() {
                assert(e[i] == d[i]);
            }
        }
        e
    }
}

proof fn lemma_trim_start(s: Seq<char>) -> (b: Seq<char>)
    ensures
        s == b + text::trim_start(s),
        blank(b),
        text::trim_start(s).len() > 0 ==> !text::is_space(text::trim_start(s)[0]),
    decreases s.len(),
{
    if s.len() == 0 || !text::is_space(s[0]) {
        assert(s =~= Seq::<char>::empty() + s);
        Seq::empty()
    } else {
        let d = lemma_trim_start(s.subrange(1, s.len() as int));
        let b = seq![s[0]] + d;
        let r = s.subrange(1, s.len() as int);
        let t = text::trim_start(r);
        assert(r == d + t);
        assert(s =~= seq![s[0]] + r);
        assert(seq![s[0]] + (d + t) =~= b + t);
        assert forall|i: int| 0 <= i < b.len() implies text::is_space(#[trigger] b[i]) by {
            if i > 0 {
                assert(b[i] == d[i - 1]);
            }
        }
        b
    }
}

/// What a text is cut into is joined again by the character it was cut at, and holds it
/// nowhere.
pub proof fn law_pieces_join(s: Seq<char>, c: char, i: int)
    ensures
        joined(text::pieces(s, c), c) == s,
        text::pieces(s, c).len() > 0,
        0 <= i < text::pieces(s, c).len() ==> !text::pieces(s, c)[i].contains(c),
    decreases s.len(),
{
    let n = text::find(s, c);
    lemma_find_first(s, c);
    if 0 <= n < s.len() {
        let front = s.subrange(0, n);
        let rest = s.subrange(n + 1, s.len() as int);
        law_pieces_join(rest, c, i - 1);
        let p = text::pieces(s, c);
        let q = text::pieces(rest, c);
        assert(p =~= seq![front] + q);
        assert(p.skip(1) =~= q);
        assert(s =~= front + seq![c] + rest);
        if i == 0 {
            assert(!front.contains(c)) by {
                if front.contains(c) {
                    let k = choose|k: int| 0 <= k < front.len() && front[k] == c;
                    assert(s[k] == c);
                }
            }
        } else if 0 < i < p.len() {
            assert(p[i] == q[i - 1]);
        }
    } else {
        assert(text::pieces(s, c) =~= seq![s]);
        if s.contains(c) {
            let k = choose|k: int| 0 <= k < s.len() && s[k] == c;
        }
    }
}

/// Parts with a character between them.
pub open spec fn joined(p: Seq<Seq<char>>, c: char) -> Seq<char>
    decreases p.len(),
{
    if p.len() == 0 {
        Seq::empty()
    } else if p.len() == 1 {
        p[0]
    } else {
        p[0] + seq![c] + joined(p.skip(1), c)
    }
}

proof fn lemma_find_first(s: Seq<char>, c: char)
    ensures
        0 <= text::find(s, c) <= s.len(),
        text::find(s, c) < s.len() ==> s[text::find(s, c)] == c,
        forall|i: int| 0 <= i < text::find(s, c) ==> s[i] != c,
    decreases s.len(),
{
    if s.len() > 0 && s[0] != c {
        let t = s.subrange(1, s.len() as int);
        lemma_find_first(t, c);
        assert forall|i: int| 0 <= i < text::find(s, c) implies s[i] != c by {
            if i > 0 {
                assert(t[i - 1] == s[i]);
            }
        }
    }
}

/// A text is halved at the first place of a character; where it has none, all of it is
/// the first half.
pub proof fn law_halves(s: Seq<char>, c: char)
    ensures
        !text::halves(s, c).0.contains(c),
        s.contains(c) ==> s == text::halves(s, c).0 + seq![c] + text::halves(s, c).1,
        !s.contains(c) ==> text::halves(s, c) == (s, Seq::<char>::empty()),
{
    lemma_find_first(s, c);
    let n = text::find(s, c);
    let (a, b) = text::halves(s, c);
    if s.contains(c) {
        let k = choose|k: int| 0 <= k < s.len() && s[k] == c;
        assert(n <= k);
        assert(s =~= a + seq![c] + b);
    } else {
        if n < s.len() {
            assert(s.contains(s[n]));
        }
    }
    if a.contains(c) {
        let k = choose|k: int| 0 <= k < a.len() && a[k] == c;
        assert(s[k] == c);
    }
}

// --- numbers and amounts --------------------------------------------------------------------

/// Digits count by tens: one more digit makes a number ten times as large and adds it. A
/// leading plus changes nothing, and nothing but digits is a number.
pub proof fn law_digits_count_by_tens(s: Seq<char>, d: nat)
    requires
        d < 10,
        numbers::all_digits(s),
        s.len() > 0,
    ensures
        numbers::number(s.push(((48 + d) as u8) as char)) == Some(
            10 * (numbers::number(s)->0) + d,
        ),
        numbers::number(seq!['+'] + s) == numbers::number(s),
        numbers::number(s) is Some,
        numbers::number(s.push('.')) is None,
        numbers::number(s.push(' ')) is None,
        numbers::number(seq!['-'] + s) is None,
        numbers::number(Seq::empty()) is None,
{
    let c = ((48 + d) as u8) as char;
    let t = s.push(c);
    assert(numbers::is_digit(s[0]));
    assert(numbers::digit(c) == d);
    assert forall|i: int| 0 <= i < t.len() implies numbers::is_digit(#[trigger] t[i]) by {
        if i < s.len() {
            assert(numbers::is_digit(s[i]));
        }
    }
    assert(t.drop_last() =~= s);
    assert(numbers::unsigned(t) == t && numbers::unsigned(s) == s);
    let p = seq!['+'] + s;
    assert(p.subrange(1, p.len() as int) =~= s);
    let q = s.push('.');
    assert(numbers::unsigned(q) == q);
    assert(!numbers::is_digit(q[s.len() as int]));
    let w = s.push(' ');
    assert(numbers::unsigned(w) == w);
    assert(!numbers::is_digit(w[s.len() as int]));
    let m = seq!['-'] + s;
    assert(numbers::unsigned(m) == m);
    assert(!numbers::is_digit(m[0]));
}

/// A whole amount is that many times 100,000 units, and each place behind the point is
/// worth a tenth of the one before; what stands behind the fifth counts for nothing.
pub proof fn law_amounts_have_five_places(n: nat, d: nat, more: Seq<char>)
    requires
        d < 10,
    ensures
        amounts::amount_of(numbers::decimal(n)) == Some(n * 100_000),
        amounts::amount_of(numbers::decimal(n) + seq!['.', ((48 + d) as u8) as char]) == Some(
            n * 100_000 + d * 10_000,
        ),
        amounts::amount_of(
            numbers::decimal(n) + seq!['.', '0', '0', '0', '0', ((48 + d) as u8) as char] + more,
        ) == Some(n * 100_000 + d),
{
    let w = numbers::decimal(n);
    let c = ((48 + d) as u8) as char;
    numbers::lemma_decimal_value(n);
    numbers::law_decimal_reads_back(n);
    assert(numbers::digit(c) == d && numbers::is_digit(c));
    assert forall|i: int| 0 <= i < w.len() implies w[i] != '.' by {
        assert(numbers::is_digit(w[i]));
    }
    // No point at all.
    lemma_no_point(w);
    assert(amounts::whole(w) =~= w);
    let z = seq!['0', '0', '0', '0', '0'];
    assert(amounts::places(w) =~= z);
    lemma_five(z);
    // One place.
    let s1 = w + seq!['.', c];
    text::lemma_find(s1, '.', w.len() as int);
    assert(amounts::whole(s1) =~= w);
    let z1 = seq![c, '0', '0', '0', '0'];
    assert(amounts::places(s1) =~= z1);
    lemma_five(z1);
    // Five places and more.
    let s5 = w + seq!['.', '0', '0', '0', '0', c] + more;
    text::lemma_find(s5, '.', w.len() as int);
    assert(amounts::whole(s5) =~= w);
    let z5 = seq!['0', '0', '0', '0', c];
    assert(amounts::places(s5) =~= z5);
    lemma_five(z5);
}

proof fn lemma_no_point(w: Seq<char>)
    requires
        forall|i: int| 0 <= i < w.len() ==> w[i] != '.',
    ensures
        text::find(w, '.') == w.len(),
{
    lemma_find_first(w, '.');
}

proof fn lemma_five(z: Seq<char>)
    requires
        z.len() == 5,
        numbers::all_digits(z),
    ensures
        numbers::number(z) == Some(
            (10_000 * numbers::digit(z[0]) + 1_000 * numbers::digit(z[1]) + 100 * numbers::digit(
                z[2],
            ) + 10 * numbers::digit(z[3]) + numbers::digit(z[4])) as nat,
        ),
{
    assert(numbers::is_digit(z[0]));
    assert(numbers::unsigned(z) == z);
    amounts::lemma_five_digits(z);
}

/// Hexadecimal digits read in either case, and stand for 0 to 15.
pub proof fn law_hex_case(n: nat)
    requires
        10 <= n < 16,
    ensures
        numbers::hex_digit((87 + n) as u8) == Some(n as u8),
        numbers::hex_digit((55 + n) as u8) == Some(n as u8),
        numbers::hex_pair((87 + n) as u8, 48) == Some((16 * n) as u8),
        numbers::hex_pair(48, (55 + n) as u8) == Some(n as u8),
{
}

// --- tickers ------------------------------------------------------------------------------------

/// A ticker in its one form is one to ten capital letters and digits, letter by letter
/// those that were typed.
pub proof fn law_canonical_ticker(input: Seq<char>, i: int)
    requires
        ticker::normal(input) is Some,
        0 <= i < (ticker::normal(input)->0).len(),
    ensures
        ({
            let t = ticker::normal(input)->0;
            let typed = ticker::bare(input);
            &&& 1 <= t.len() <= 10
            &&& t.len() == typed.len()
            &&& 48 <= t[i] as u32 <= 57 || 65 <= t[i] as u32 <= 90
            &&& t[i] == typed[i] || t[i] as u32 + 32 == typed[i] as u32
        }),
        ({
            let t = ticker::normal(input)->0;
            let typed = text::trimmed(input);
            let sign: int = if typed[0] == '$' {
                1
            } else {
                0
            };
            &&& typed.len() == sign + t.len()
            &&& t[i] == typed[sign + i] || t[i] as u32 + 32 == typed[sign + i] as u32
        }),
{
    assert(ticker::is_alphanumeric(ticker::bare(input)[i]));
    assert(ticker::normal(input)->0[i] == ticker::upper(ticker::bare(input)[i]));
    lemma_upper(ticker::bare(input)[i]);
}

/// One to ten capital letters and digits are a ticker as they stand, and with a `$` in
/// front of them.
pub proof fn law_ticker_is_read(t: Seq<char>)
    requires
        1 <= t.len() <= 10,
        forall|i: int|
            0 <= i < t.len() ==> 48 <= (#[trigger] t[i]) as u32 <= 57 || 65 <= t[i] as u32 <= 90,
    ensures
        ticker::normal(t) == Some(t),
        ticker::normal(seq!['$'] + t) == Some(t),
{
    let d = seq!['$'] + t;
    assert(!text::is_space(t[0]) && !text::is_space(t.last()));
    assert(d.last() == t.last());
    assert(text::trimmed(t) == t);
    assert(text::trimmed(d) == d);
    assert(d.subrange(1, d.len() as int) =~= t);
    assert(t.map_values(|c: char| ticker::upper(c)) =~= t);
}

/// Two sums of money shown together are added up, and stay at the largest number there
/// is where their sum is larger.
pub proof fn law_capped_sum(a: u64, b: u64)
    ensures
        a <= web::capped_sum(a, b) <= a + b,
        web::capped_sum(a, b) < u64::MAX ==> web::capped_sum(a, b) - a == b,
{
}

proof fn lemma_upper(c: char)
    requires
        ticker::is_alphanumeric(c),
    ensures
        48 <= ticker::upper(c) as u32 <= 57 || 65 <= ticker::upper(c) as u32 <= 90,
        ticker::upper(c) == c || ticker::upper(c) as u32 + 32 == c as u32,
{
}

// --- query strings ------------------------------------------------------------------------------

/// Bytes written as `%` and two hexadecimal digits each.
pub open spec fn quoted(b: Seq<u8>) -> Seq<u8>
    decreases b.len(),
{
    if b.len() == 0 {
        Seq::empty()
    } else {
        seq![
            37u8,
            numbers::hex_char(b[0] as int / 16),
            numbers::hex_char(b[0] as int % 16),
        ] + quoted(b.skip(1))
    }
}

proof fn lemma_unquoted_from(s: Seq<u8>, i: int)
    requires
        0 <= i <= s.len(),
    ensures
        web::unquoted(s, i) == web::unquoted(s.skip(i), 0),
    decreases s.len() - i,
{
    lemma_unquoted_shift(s, s.skip(i), i, 0);
}

proof fn lemma_unquoted_shift(s: Seq<u8>, t: Seq<u8>, i: int, j: int)
    requires
        0 <= j <= t.len(),
        0 <= i <= s.len(),
        s.len() - i == t.len() - j,
        forall|k: int| 0 <= k < s.len() - i ==> #[trigger] s[i + k] == t[j + k],
    ensures
        web::unquoted(s, i) == web::unquoted(t, j),
    decreases s.len() - i,
{
    if i < s.len() {
        assert(s[i + 0] == t[j + 0]);
        if i + 1 < s.len() {
            assert(s[i + 1] == t[j + 1]);
        }
        if i + 2 < s.len() {
            assert(s[i + 2] == t[j + 2]);
        }
        assert forall|k: int| 0 <= k < s.len() - (i + 1) implies #[trigger] s[i + 1 + k] == t[j + 1
            + k] by {
            assert(s[i + (1 + k)] == t[j + (1 + k)]);
        }
        lemma_unquoted_shift(s, t, i + 1, j + 1);
        if i + 2 < s.len() {
            assert forall|k: int| 0 <= k < s.len() - (i + 3) implies #[trigger] s[i + 3 + k] == t[j
                + 3 + k] by {
                assert(s[i + (3 + k)] == t[j + (3 + k)]);
            }
            lemma_unquoted_shift(s, t, i + 3, j + 3);
        }
    }
}

/// What was quoted reads back, byte for byte. A plus is a space, and a byte that is
/// neither a plus nor a percent sign stands for itself.
pub proof fn law_unquoting_reads_back(b: Seq<u8>, x: u8, rest: Seq<u8>)
    requires
        x != 37,
    ensures
        web::unquoted(quoted(b), 0) == b,
        web::unquoted(seq![x] + rest, 0) == seq![
            if x == 43 {
                32u8
            } else {
                x
            },
        ] + web::unquoted(rest, 0),
    decreases b.len(),
{
    let s = seq![x] + rest;
    lemma_unquoted_from(s, 1);
    assert(s.skip(1) =~= rest);
    if b.len() > 0 {
        let q = quoted(b);
        let more = quoted(b.skip(1));
        let n = b[0] as int;
        let (h, l) = (numbers::hex_char(n / 16), numbers::hex_char(n % 16));
        law_unquoting_reads_back(b.skip(1), x, rest);
        lemma_unquoted_from(q, 3);
        assert(q.skip(3) =~= more);
        assert(q[0] == 37 && q[1] == h && q[2] == l);
        assert(0 <= n / 16 < 16 && 0 <= n % 16 < 16);
        assert(numbers::hex_digit(h) == Some((n / 16) as u8));
        assert(numbers::hex_digit(l) == Some((n % 16) as u8));
        assert(numbers::hex_pair(h, l) == Some(b[0]));
        assert(seq![b[0]] + b.skip(1) =~= b);
    } else {
        assert(web::unquoted(quoted(b), 0) =~= b);
    }
}

/// A part of a query is a name and a value with an equals sign between them; the value is
/// unquoted. A part without one says nothing.
pub proof fn law_query_parts(
    k: Seq<char>,
    v: Seq<char>,
    rest: Seq<Seq<char>>,
    m: Map<Seq<char>, Seq<char>>,
)
    requires
        !k.contains('='),
    ensures
        web::query_values(seq![k + seq!['='] + v] + rest, m) == web::query_values(
            rest,
            m.insert(k, web::lossy_text(web::unquoted(encode_utf8(v), 0))),
        ),
        web::query_values(seq![k] + rest, m) == web::query_values(rest, m),
{
    let p = k + seq!['='] + v;
    assert forall|i: int| 0 <= i < k.len() implies p[i] != '=' by {
        assert(p[i] == k[i]);
        if k[i] == '=' {
            assert(k.contains(k[i]));
        }
    }
    assert(p[k.len() as int] == '=');
    text::lemma_find(p, '=', k.len() as int);
    assert(p.subrange(0, k.len() as int) =~= k);
    assert(p.subrange(k.len() as int + 1, p.len() as int) =~= v);
    let a = seq![p] + rest;
    assert(a.subrange(1, a.len() as int) =~= rest);
    let b = seq![k] + rest;
    assert(b.subrange(1, b.len() as int) =~= rest);
    lemma_find_first(k, '=');
    if text::find(k, '=') < k.len() {
        assert(k.contains(k[text::find(k, '=')]));
    }
}

proof fn lemma_word_end(s: Seq<char>, n: int)
    requires
        0 <= n <= s.len(),
        forall|i: int| 0 <= i < n ==> !text::is_space(#[trigger] s[i]),
        n < s.len() ==> text::is_space(s[n]),
    ensures
        text::word_end(s) == n,
    decreases s.len(),
{
    if n > 0 {
        let t = s.subrange(1, s.len() as int);
        assert(!text::is_space(s[0]));
        assert forall|i: int| 0 <= i < n - 1 implies !text::is_space(#[trigger] t[i]) by {
            assert(t[i] == s[i + 1]);
        }
        if n < s.len() {
            assert(t[n - 1] == s[n]);
        }
        lemma_word_end(t, n - 1);
    }
}

/// The target of a request is the second word of its first line.
pub proof fn law_request_target(method: Seq<char>, target: Seq<char>, more: Seq<char>)
    requires
        method.len() > 0,
        target.len() > 0,
        forall|i: int| 0 <= i < method.len() ==> !text::is_space(#[trigger] method[i]),
        forall|i: int| 0 <= i < target.len() ==> !text::is_space(#[trigger] target[i]),
    ensures
        web::target_in(method + seq![' '] + target + seq![' '] + more) == target,
        web::target_in(method + seq![' '] + target) == target,
        web::target_in(method) == seq!['/'],
{
    lemma_two_words(method, target, seq![' '] + more);
    assert(method + seq![' '] + target + (seq![' '] + more) =~= method + seq![' '] + target + seq![
        ' ',
    ] + more);
    lemma_two_words(method, target, Seq::empty());
    assert(method + seq![' '] + target + Seq::<char>::empty() =~= method + seq![' '] + target);
    reveal_strlit("/");
    assert("/"@ =~= seq!['/']);
    assert(!text::is_space(method[0]));
    assert(text::trim_start(method) == method);
    lemma_word_end(method, method.len() as int);
    let e = text::after_word(method);
    assert(e =~= Seq::empty());
    assert(text::trim_start(e) == e);
    assert(text::first_word(e).len() == 0);
}

proof fn lemma_two_words(method: Seq<char>, target: Seq<char>, tail: Seq<char>)
    requires
        method.len() > 0,
        target.len() > 0,
        forall|i: int| 0 <= i < method.len() ==> !text::is_space(#[trigger] method[i]),
        forall|i: int| 0 <= i < target.len() ==> !text::is_space(#[trigger] target[i]),
        tail.len() > 0 ==> text::is_space(tail[0]),
    ensures
        web::target_in(method + seq![' '] + target + tail) == target,
{
    let s = method + seq![' '] + target + tail;
    let n = method.len() as int;
    assert(!text::is_space(method[0]));
    assert(s[0] == method[0]);
    assert(text::trim_start(s) == s);
    assert forall|i: int| 0 <= i < n implies !text::is_space(#[trigger] s[i]) by {
        assert(s[i] == method[i]);
    }
    assert(s[n] == ' ');
    lemma_word_end(s, n);
    let e = text::after_word(s);
    let u = target + tail;
    assert(e =~= seq![' '] + u);
    assert(e.subrange(1, e.len() as int) =~= u);
    assert(u[0] == target[0]);
    assert(!text::is_space(target[0]));
    assert(text::trim_start(u) == u);
    assert(text::is_space(e[0]));
    assert(text::trim_start(e) == text::trim_start(e.subrange(1, e.len() as int)));
    assert forall|i: int| 0 <= i < target.len() implies !text::is_space(#[trigger] u[i]) by {
        assert(u[i] == target[i]);
    }
    if target.len() < u.len() {
        assert(u[target.len() as int] == tail[0]);
    }
    lemma_word_end(u, target.len() as int);
    assert(u.subrange(0, target.len() as int) =~= target);
}

/// Of two values for a name the last one counts, and a name never given has none.
pub proof fn law_last_value_counts(
    pairs: Seq<(String, String)>,
    name: String,
    value: String,
    other: Seq<char>,
)
    ensures
        params::values(pairs.push((name, value)))[name@] == value@,
        params::values(pairs.push((name, value))).contains_key(name@),
        other != name@ ==> params::values(pairs.push((name, value))).contains_key(other)
            == params::values(pairs).contains_key(other),
        other != name@ && params::values(pairs).contains_key(other) ==> params::values(
            pairs.push((name, value)),
        )[other] == params::values(pairs)[other],
{
    assert(pairs.push((name, value)).drop_last() =~= pairs);
}

/// A value behind a flag is the flag's: `--name value` in front of other arguments sets
/// the name, unless they set it again, and changes no other.
pub proof fn law_flags_are_pairs(
    args: Seq<Seq<char>>,
    name: Seq<char>,
    m: Map<Seq<char>, Seq<char>>,
)
    requires
        args.len() >= 2,
        args[0] == seq!['-', '-'] + name,
    ensures
        cli::flags(args, 0, m) == cli::flags(args, 2, m.insert(name, args[1])),
{
    assert(args[0].subrange(2, args[0].len() as int) =~= name);
}

// --- fees ----------------------------------------------------------------------------------------

/// A fee that is accepted is never below the least one, which is the fee where none is
/// given.
pub proof fn law_fees_are_enough(p: Map<Seq<char>, Seq<char>>, min_fee: u64)
    ensures
        cli::fee_in(p, min_fee) matches Ok(f) ==> f >= min_fee,
        !p.contains_key("fee"@) ==> cli::fee_in(p, min_fee) == Ok::<u64, FlagError>(min_fee),
        p.contains_key("fee"@) ==> match amounts::amount_of(p["fee"@]) {
            Some(n) => if n > u64::MAX {
                cli::fee_in(p, min_fee) == Err::<u64, FlagError>(FlagError::BadAmount)
            } else if n < min_fee {
                cli::fee_in(p, min_fee) == Err::<u64, FlagError>(FlagError::FeeTooLow)
            } else {
                cli::fee_in(p, min_fee) == Ok::<u64, FlagError>(n as u64)
            },
            None => cli::fee_in(p, min_fee) == Err::<u64, FlagError>(FlagError::BadAmount),
        },
{
}

} // verus!
