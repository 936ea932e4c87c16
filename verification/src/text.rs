//! Strings as characters and bytes.

use vstd::prelude::*;
use vstd::string::*;
use vstd::utf8::*;

use crate::bytes::copy_bytes;

verus! {

/// `String::from_utf8`: the string whose UTF-8 form is `b`, or `None` where `b`
/// is not UTF-8.
#[verifier::external_body]
pub(crate) fn utf8_string(b: Vec<u8>) -> (r: Option<String>)
    ensures
        match r {
            Some(s) => valid_utf8(b@) && s@ == decode_utf8(b@),
            None => !valid_utf8(b@),
        },
{
    String::from_utf8(b).ok()
}

/// The text that `str::to_uppercase` makes.
pub uninterp spec fn upper_text(s: Seq<char>) -> Seq<char>;

/// `str::to_uppercase`: the upper-case equivalent of the text. The result is a
/// function of the text; of ASCII text it is the text with its lower-case letters
/// replaced by the upper-case ones.
#[verifier::external_body]
pub(crate) fn upper_string(s: &str) -> (r: String)
    ensures
        r@ == upper_text(s@),
        (forall|i: int| 0 <= i < s@.len() ==> (#[trigger] s@[i]) as u32 <= 127) ==> r@
            == s@.map_values(|c: char| crate::ticker::upper(c)),
{
    s.to_uppercase()
}

/// A string whose UTF-8 form is `b` has just those bytes.
pub proof fn lemma_utf8_bytes(b: Seq<u8>)
    requires
        valid_utf8(b),
    ensures
        encode_utf8(decode_utf8(b)) == b,
{
    decode_utf8_encode_utf8(b);
}

/// A string's UTF-8 form is valid and gives the string back.
pub proof fn lemma_utf8_chars(c: Seq<char>)
    ensures
        valid_utf8(encode_utf8(c)),
        decode_utf8(encode_utf8(c)) == c,
{
    encode_utf8_valid_utf8(c);
    encode_utf8_decode_utf8(c);
}

/// The ASCII characters with the codes `b`.
pub open spec fn ascii(b: Seq<u8>) -> Seq<char> {
    Seq::new(b.len(), |i: int| b[i] as char)
}

/// The string of ASCII characters with the codes `b`.
pub fn ascii_string(b: Vec<u8>) -> (s: String)
    requires
        forall|i: int| 0 <= i < b@.len() ==> b@[i] < 128,
    ensures
        s@ == ascii(b@),
{
    proof {
        let c = ascii(b@);
        assert(is_ascii_chars(c));
        is_ascii_chars_encode_utf8(c);
        assert(encode_utf8(c) =~= b@);
        lemma_utf8_chars(c);
    }
    match utf8_string(b) {
        Some(s) => s,
        None => {
            assert(false);
            String::new()
        },
    }
}

/// The UTF-8 form of `s`, copied.
pub fn utf8_of(s: &str) -> (b: Vec<u8>)
    ensures
        b@ == encode_utf8(s@),
{
    copy_bytes(s.as_bytes())
}

/// The characters of `s`.
pub fn chars_of(s: &str) -> (v: Vec<char>)
    ensures
        v@ == s@,
{
    let mut v: Vec<char> = Vec::new();
    for c in it: s.chars()
        invariant
            v@ == it.seq().take(it.index()),
            it.seq() == s@,
    {
        v.push(c);
        assert(it.seq().take(it.index() + 1) =~= it.seq().take(it.index()).push(c));
    }
    assert(s@.take(s@.len() as int) =~= s@);
    v
}

/// Whether `c` is white space: the characters with the Unicode property
/// `White_Space`.
pub open spec fn is_space(c: char) -> bool {
    ||| 0x09 <= c as u32 <= 0x0D
    ||| c as u32 == 0x20
    ||| c as u32 == 0x85
    ||| c as u32 == 0xA0
    ||| c as u32 == 0x1680
    ||| 0x2000 <= c as u32 <= 0x200A
    ||| c as u32 == 0x2028
    ||| c as u32 == 0x2029
    ||| c as u32 == 0x202F
    ||| c as u32 == 0x205F
    ||| c as u32 == 0x3000
}

/// Whether `c` is white space.
pub fn space(c: char) -> (r: bool)
    ensures
        r == is_space(c),
{
    let n: u32 = c as u32;
    (0x09 <= n && n <= 0x0D) || n == 0x20 || n == 0x85 || n == 0xA0 || n == 0x1680 || (0x2000 <= n
        && n <= 0x200A) || n == 0x2028 || n == 0x2029 || n == 0x202F || n == 0x205F || n == 0x3000
}

/// `s` without the white space at its end.
pub open spec fn trim_end(s: Seq<char>) -> Seq<char>
    decreases s.len(),
{
    if s.len() == 0 || !is_space(s.last()) {
        s
    } else {
        trim_end(s.drop_last())
    }
}

/// `s` without the white space at its start.
pub open spec fn trim_start(s: Seq<char>) -> Seq<char>
    decreases s.len(),
{
    if s.len() == 0 || !is_space(s[0]) {
        s
    } else {
        trim_start(s.subrange(1, s.len() as int))
    }
}

/// `s` without the white space around it.
pub open spec fn trimmed(s: Seq<char>) -> Seq<char> {
    trim_start(trim_end(s))
}

/// Where the part of `c` without the white space around it starts and ends.
fn trim_range(c: &Vec<char>) -> (r: (usize, usize))
    ensures
        r.0 <= r.1 <= c@.len(),
        c@.subrange(r.0 as int, r.1 as int) == trimmed(c@),
{
    let mut hi: usize = c.len();
    assert(c@.subrange(0, c@.len() as int) =~= c@);
    while hi > 0 && space(c[hi - 1])
        invariant
            hi <= c@.len(),
            trim_end(c@) == trim_end(c@.subrange(0, hi as int)),
        decreases hi,
    {
        assert(c@.subrange(0, hi as int).drop_last() =~= c@.subrange(0, hi - 1));
        hi -= 1;
    }
    let ghost t = c@.subrange(0, hi as int);
    assert(trim_end(c@) == t);
    let mut lo: usize = 0;
    assert(c@.subrange(0, hi as int) =~= t);
    while lo < hi && space(c[lo])
        invariant
            lo <= hi <= c@.len(),
            t == c@.subrange(0, hi as int),
            trim_start(t) == trim_start(c@.subrange(lo as int, hi as int)),
        decreases hi - lo,
    {
        let ghost u = c@.subrange(lo as int, hi as int);
        assert(u.subrange(1, u.len() as int) =~= c@.subrange(lo + 1, hi as int));
        lo += 1;
    }
    (lo, hi)
}

/// `c` without the white space around it.
pub fn trim(c: &Vec<char>) -> (r: Vec<char>)
    ensures
        r@ == trimmed(c@),
{
    let (lo, hi) = trim_range(c);
    let mut r: Vec<char> = Vec::new();
    let mut i: usize = lo;
    while i < hi
        invariant
            lo <= i <= hi <= c@.len(),
            r@ == c@.subrange(lo as int, i as int),
        decreases hi - i,
    {
        r.push(c[i]);
        i += 1;
        assert(r@ =~= c@.subrange(lo as int, i as int));
    }
    r
}

/// `s` without the white space around it.
pub fn trim_str(s: &str) -> (r: &str)
    ensures
        r@ == trimmed(s@),
{
    let c = chars_of(s);
    let (lo, hi) = trim_range(&c);
    s.substring_char(lo, hi)
}

// --- lines ----------------------------------------------------------------------

/// Where `c` is first in `s`, or the length of `s` where it is not.
pub open spec fn find(s: Seq<char>, c: char) -> int
    decreases s.len(),
{
    if s.len() == 0 || s[0] == c {
        0
    } else {
        1 + find(s.subrange(1, s.len() as int), c)
    }
}

/// A line that a line feed ended, without a carriage return before that.
pub open spec fn without_return(line: Seq<char>) -> Seq<char> {
    if line.len() > 0 && line.last() == '\r' {
        line.drop_last()
    } else {
        line
    }
}

/// The lines of `s`. A line feed ends a line, a carriage return before it
/// included; the last line may do without.
pub open spec fn lines(s: Seq<char>) -> Seq<Seq<char>>
    decreases s.len(),
{
    let n = find(s, '\n');
    if s.len() == 0 {
        Seq::empty()
    } else if 0 <= n < s.len() {
        seq![without_return(s.subrange(0, n))] + lines(s.subrange(n + 1, s.len() as int))
    } else {
        seq![s]
    }
}

pub proof fn lemma_find(s: Seq<char>, c: char, n: int)
    requires
        0 <= n <= s.len(),
        forall|i: int| 0 <= i < n ==> s[i] != c,
        n == s.len() || s[n] == c,
    ensures
        find(s, c) == n,
    decreases n,
{
    if n > 0 {
        let rest = s.subrange(1, s.len() as int);
        assert forall|i: int| 0 <= i < n - 1 implies rest[i] != c by {
            assert(rest[i] == s[i + 1]);
        }
        lemma_find(rest, c, n - 1);
    }
}

/// Where `x` is first in `c` from place `at` on, or the end.
pub fn find_from(c: &Vec<char>, at: usize, x: char) -> (r: usize)
    requires
        at <= c@.len(),
    ensures
        at <= r <= c@.len(),
        r == at + find(c@.subrange(at as int, c@.len() as int), x),
        forall|i: int| at <= i < r ==> c@[i] != x,
        r < c@.len() ==> c@[r as int] == x,
{
    let mut end: usize = at;
    while end < c.len() && c[end] != x
        invariant
            at <= end <= c@.len(),
            forall|i: int| at <= i < end ==> c@[i] != x,
        decreases c@.len() - end,
    {
        end += 1;
    }
    proof {
        lemma_find(c@.subrange(at as int, c@.len() as int), x, end - at);
    }
    end
}

/// The lines of `s`.
pub fn lines_of(s: &str) -> (r: Vec<String>)
    ensures
        r@.map_values(|l: String| l@) == lines(s@),
{
    let c = chars_of(s);
    let mut r: Vec<String> = Vec::new();
    let mut at: usize = 0;
    assert(c@.subrange(0, c@.len() as int) =~= c@);
    assert(r@.map_values(|l: String| l@) + lines(c@) =~= lines(c@));
    while at < c.len()
        invariant
            at <= c@.len(),
            c@ == s@,
            r@.map_values(|l: String| l@) + lines(c@.subrange(at as int, c@.len() as int)) == lines(
                c@,
            ),
        decreases c@.len() - at,
    {
        let ghost rest = c@.subrange(at as int, c@.len() as int);
        let ghost had = r@.map_values(|l: String| l@);
        let end = find_from(&c, at, '\n');
        if end == c.len() {
            r.push(s.substring_char(at, end).to_owned());
            proof {
                assert(c@.subrange(at as int, end as int) =~= rest);
                assert(r@.map_values(|l: String| l@) =~= had.push(rest));
                assert(c@.subrange(end as int, c@.len() as int) =~= Seq::empty());
                assert(had.push(rest) + lines(Seq::empty()) =~= had + lines(rest));
            }
            at = end;
        } else {
            let mut upto: usize = end;
            if end > at && c[end - 1] == '\r' {
                upto = end - 1;
            }
            r.push(s.substring_char(at, upto).to_owned());
            proof {
                let line = rest.subrange(0, end - at);
                let left = rest.subrange(end - at + 1, rest.len() as int);
                assert(c@.subrange(at as int, upto as int) =~= without_return(line));
                assert(r@.map_values(|l: String| l@) =~= had.push(without_return(line)));
                assert(c@.subrange(end + 1, c@.len() as int) =~= left);
                assert(had.push(without_return(line)) + lines(left) =~= had + lines(rest));
            }
            at = end + 1;
        }
    }
    assert(c@.subrange(at as int, c@.len() as int) =~= Seq::empty());
    assert(r@.map_values(|l: String| l@) + lines(Seq::empty()) =~= r@.map_values(
        |l: String| l@,
    ));
    r
}

/// Lines with a line feed between them.
pub open spec fn joined_lines(l: Seq<Seq<char>>) -> Seq<char>
    decreases l.len(),
{
    if l.len() == 0 {
        Seq::empty()
    } else if l.len() == 1 {
        l[0]
    } else {
        l[0] + seq!['\n'] + joined_lines(l.subrange(1, l.len() as int))
    }
}

pub proof fn lemma_joined_push(l: Seq<Seq<char>>, x: Seq<char>)
    requires
        l.len() > 0,
    ensures
        joined_lines(l.push(x)) == joined_lines(l) + seq!['\n'] + x,
    decreases l.len(),
{
    let more = l.push(x);
    let rest = l.subrange(1, l.len() as int);
    assert(more.subrange(1, more.len() as int) =~= rest.push(x));
    if l.len() == 1 {
        assert(rest.push(x) =~= seq![x]);
        assert(joined_lines(seq![x]) == x);
    } else {
        lemma_joined_push(rest, x);
        assert(joined_lines(more) =~= joined_lines(l) + seq!['\n'] + x);
    }
}

/// Whether a line is one that comes back as it is from a list of lines: not
/// empty, without a line feed, and without white space around it.
pub open spec fn plain_line(l: Seq<char>) -> bool {
    &&& l.len() > 0
    &&& !l.contains('\n')
    &&& trimmed(l) == l
}

/// Plain lines come back from their list.
pub proof fn lemma_lines_of_joined(l: Seq<Seq<char>>)
    requires
        forall|i: int| 0 <= i < l.len() ==> plain_line(#[trigger] l[i]),
    ensures
        lines(joined_lines(l)) == l,
    decreases l.len(),
{
    let s = joined_lines(l);
    if l.len() == 1 {
        assert(plain_line(l[0]));
        assert forall|i: int| 0 <= i < s.len() implies s[i] != '\n' by {
            assert(l[0].contains(l[0][i]));
        }
        lemma_find(s, '\n', s.len() as int);
        assert(lines(s) =~= l);
    } else if l.len() > 1 {
        let rest = l.subrange(1, l.len() as int);
        let first = l[0];
        assert(plain_line(first));
        assert forall|i: int| 0 <= i < rest.len() implies plain_line(#[trigger] rest[i]) by {
            assert(plain_line(l[i + 1]));
        }
        lemma_lines_of_joined(rest);
        assert forall|i: int| 0 <= i < first.len() implies s[i] != '\n' by {
            assert(first.contains(first[i]));
        }
        lemma_find(s, '\n', first.len() as int);
        lemma_plain_ends(first);
        assert(s.subrange(0, first.len() as int) =~= first);
        assert(s.subrange(first.len() as int + 1, s.len() as int) =~= joined_lines(rest));
        assert(seq![first] + rest =~= l);
    }
}

/// A line without white space around it does not end in white space.
pub proof fn lemma_plain_ends(l: Seq<char>)
    requires
        trimmed(l) == l,
        l.len() > 0,
    ensures
        !is_space(l.last()),
{
    lemma_trim_end(l);
    lemma_trim_start(trim_end(l));
}

/// What `trim_end` leaves does not end in white space, and is no longer.
proof fn lemma_trim_end(s: Seq<char>)
    ensures
        trim_end(s).len() <= s.len(),
        trim_end(s).len() > 0 ==> !is_space(trim_end(s).last()),
        trim_end(s).len() == s.len() ==> trim_end(s) == s,
    decreases s.len(),
{
    if s.len() > 0 && is_space(s.last()) {
        lemma_trim_end(s.drop_last());
    }
}

/// What `trim_start` leaves ends as before and does not start with white space.
proof fn lemma_trim_start(s: Seq<char>)
    ensures
        trim_start(s).len() <= s.len(),
        trim_start(s).len() > 0 ==> !is_space(trim_start(s)[0]),
        trim_start(s).len() > 0 ==> s.len() > 0 && trim_start(s).last() == s.last(),
        trim_start(s).len() == s.len() ==> trim_start(s) == s,
    decreases s.len(),
{
    if s.len() > 0 && is_space(s[0]) {
        lemma_trim_start(s.subrange(1, s.len() as int));
    }
}

/// Trimming again changes nothing.
pub proof fn lemma_trimmed_twice(s: Seq<char>)
    ensures
        trimmed(trimmed(s)) == trimmed(s),
{
    lemma_trim_end(s);
    lemma_trim_start(trim_end(s));
}

// --- pieces -----------------------------------------------------------------------

/// The pieces of `s` between the places where `c` stands.
pub open spec fn pieces(s: Seq<char>, c: char) -> Seq<Seq<char>>
    decreases s.len(),
{
    let n = find(s, c);
    if 0 <= n < s.len() {
        seq![s.subrange(0, n)] + pieces(s.subrange(n + 1, s.len() as int), c)
    } else {
        seq![s]
    }
}

/// What stands before the first `c` in `s`, and what after it: nothing where there
/// is no `c`.
pub open spec fn halves(s: Seq<char>, c: char) -> (Seq<char>, Seq<char>) {
    let n = find(s, c);
    if 0 <= n < s.len() {
        (s.subrange(0, n), s.subrange(n + 1, s.len() as int))
    } else {
        (s, Seq::empty())
    }
}

/// Where the first white space in `s` is, or its length where it has none.
pub open spec fn word_end(s: Seq<char>) -> int
    decreases s.len(),
{
    if s.len() == 0 || is_space(s[0]) {
        0
    } else {
        1 + word_end(s.subrange(1, s.len() as int))
    }
}

/// What follows the first word of `s`.
pub open spec fn after_word(s: Seq<char>) -> Seq<char> {
    let t = trim_start(s);
    t.subrange(word_end(t), t.len() as int)
}

/// The first word of `s`: empty where there is none.
pub open spec fn first_word(s: Seq<char>) -> Seq<char> {
    let t = trim_start(s);
    t.subrange(0, word_end(t))
}

/// Where the first word from place `at` on starts and ends.
pub fn word_from(c: &Vec<char>, at: usize) -> (r: (usize, usize))
    requires
        at <= c@.len(),
    ensures
        at <= r.0 <= r.1 <= c@.len(),
        c@.subrange(r.0 as int, r.1 as int) == first_word(c@.subrange(at as int, c@.len() as int)),
        c@.subrange(r.1 as int, c@.len() as int) == after_word(
            c@.subrange(at as int, c@.len() as int),
        ),
{
    let ghost all = c@.subrange(at as int, c@.len() as int);
    let mut lo: usize = at;
    while lo < c.len() && space(c[lo])
        invariant
            at <= lo <= c@.len(),
            all == c@.subrange(at as int, c@.len() as int),
            trim_start(all) == trim_start(c@.subrange(lo as int, c@.len() as int)),
        decreases c@.len() - lo,
    {
        let ghost u = c@.subrange(lo as int, c@.len() as int);
        assert(u.subrange(1, u.len() as int) =~= c@.subrange(lo + 1, c@.len() as int));
        lo += 1;
    }
    let ghost t = c@.subrange(lo as int, c@.len() as int);
    assert(trim_start(all) == t);
    let mut hi: usize = lo;
    assert(t.subrange(0, t.len() as int) =~= t);
    while hi < c.len() && !space(c[hi])
        invariant
            lo <= hi <= c@.len(),
            t == c@.subrange(lo as int, c@.len() as int),
            word_end(t) == hi - lo + word_end(c@.subrange(hi as int, c@.len() as int)),
        decreases c@.len() - hi,
    {
        let ghost u = c@.subrange(hi as int, c@.len() as int);
        assert(u.subrange(1, u.len() as int) =~= c@.subrange(hi + 1, c@.len() as int));
        hi += 1;
    }
    assert(c@.subrange(lo as int, hi as int) =~= t.subrange(0, word_end(t)));
    assert(c@.subrange(hi as int, c@.len() as int) =~= t.subrange(word_end(t), t.len() as int));
    (lo, hi)
}

} // verus!
