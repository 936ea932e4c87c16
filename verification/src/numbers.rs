//! Whole numbers as text.

use vstd::prelude::*;
use vstd::utf8::*;

use crate::text;
use crate::text::chars_of;

verus! {

/// The decimal digits of `n`, in ASCII.
pub open spec fn dec(n: nat) -> Seq<u8>
    decreases n,
{
    if n < 10 {
        seq![(48 + n) as u8]
    } else {
        dec(n / 10).push((48 + n % 10) as u8)
    }
}

/// The decimal digits of `n`, as text.
pub open spec fn decimal(n: nat) -> Seq<char> {
    text::ascii(dec(n))
}

/// Append the decimal digits of `n`.
pub fn push_decimal(out: &mut Vec<u8>, n: u64)
    ensures
        final(out)@ == old(out)@ + dec(n as nat),
    decreases n,
{
    if n >= 10 {
        push_decimal(out, n / 10);
    }
    out.push((48 + n % 10) as u8);
    assert(out@ =~= old(out)@ + dec(n as nat));
}

pub proof fn lemma_dec(n: nat)
    ensures
        dec(n).len() > 0,
        forall|i: int| 0 <= i < dec(n).len() ==> 48 <= #[trigger] dec(n)[i] <= 57,
    decreases n,
{
    if n >= 10 {
        lemma_dec(n / 10);
    }
}

/// `n` as text.
pub fn decimal_string(n: u64) -> (s: String)
    ensures
        s@ == decimal(n as nat),
{
    let mut out: Vec<u8> = Vec::new();
    push_decimal(&mut out, n);
    proof {
        lemma_dec(n as nat);
        assert(out@ =~= dec(n as nat));
    }
    text::ascii_string(out)
}

/// Whether `c` is a decimal digit.
pub open spec fn is_digit(c: char) -> bool {
    48 <= c as u32 <= 57
}

/// What a digit counts.
pub open spec fn digit(c: char) -> nat {
    (c as u32 - 48) as nat
}

/// Whether every character is a decimal digit.
pub open spec fn all_digits(s: Seq<char>) -> bool {
    forall|i: int| 0 <= i < s.len() ==> is_digit(#[trigger] s[i])
}

/// The number that digits stand for.
pub open spec fn value(s: Seq<char>) -> nat
    decreases s.len(),
{
    if s.len() == 0 {
        0
    } else {
        value(s.drop_last()) * 10 + digit(s.last())
    }
}

/// `s` without a plus sign in front.
pub open spec fn unsigned(s: Seq<char>) -> Seq<char> {
    if s.len() > 0 && s[0] == '+' {
        s.subrange(1, s.len() as int)
    } else {
        s
    }
}

/// The number that `s` says: decimal digits, at least one, and perhaps a plus
/// sign in front.
pub open spec fn number(s: Seq<char>) -> Option<nat> {
    if unsigned(s).len() > 0 && all_digits(unsigned(s)) {
        Some(value(unsigned(s)))
    } else {
        None
    }
}

/// The number that the characters say, where it is one and small enough.
pub fn parse_u128(c: &Vec<char>) -> (r: Option<u128>)
    ensures
        match r {
            Some(n) => number(c@) == Some(n as nat),
            None => number(c@) is None || number(c@)->0 > u128::MAX,
        },
{
    let start: usize = if c.len() > 0 && c[0] == '+' {
        1
    } else {
        0
    };
    let ghost t = unsigned(c@);
    assert(t =~= c@.subrange(start as int, c@.len() as int));
    if c.len() == start {
        return None;
    }
    let mut n: u128 = 0;
    let mut over = false;
    let mut i: usize = start;
    assert(t.take(0) =~= Seq::empty());
    while i < c.len()
        invariant
            start <= i <= c@.len(),
            t == c@.subrange(start as int, c@.len() as int),
            t == unsigned(c@),
            all_digits(t.take(i - start)),
            !over ==> n == value(t.take(i - start)),
            over ==> value(t.take(i - start)) > u128::MAX,
        decreases c@.len() - i,
    {
        let x: u32 = c[i] as u32;
        let ghost k = i - start;
        assert(t[k] == c@[i as int]);
        if x < 48 || x > 57 {
            assert(!is_digit(t[k]));
            return None;
        }
        proof {
            let now = t.take(k + 1);
            assert(now =~= t.take(k).push(t[k]));
            assert(now.drop_last() =~= t.take(k));
            assert forall|j: int| 0 <= j < now.len() implies is_digit(#[trigger] now[j]) by {
                if j < k {
                    assert(is_digit(t.take(k)[j]));
                }
            }
        }
        let d: u128 = (x - 48) as u128;
        if !over {
            if n > (u128::MAX - d) / 10 {
                over = true;
            } else {
                n = n * 10 + d;
            }
        }
        i += 1;
    }
    assert(t.take(t.len() as int) =~= t);
    if over {
        return None;
    }
    Some(n)
}

/// `c` read as a number, where it is one and small enough.
pub fn parse_u64_chars(c: &Vec<char>) -> (r: Option<u64>)
    ensures
        match r {
            Some(n) => number(c@) == Some(n as nat),
            None => number(c@) is None || number(c@)->0 > u64::MAX,
        },
{
    match parse_u128(c) {
        Some(n) => {
            if n > u64::MAX as u128 {
                return None;
            }
            Some(n as u64)
        },
        None => None,
    }
}

/// `s` read as a number, where it is one and small enough.
pub fn parse_u64(s: &str) -> (r: Option<u64>)
    ensures
        match r {
            Some(n) => number(s@) == Some(n as nat),
            None => number(s@) is None || number(s@)->0 > u64::MAX,
        },
{
    let c = chars_of(s);
    parse_u64_chars(&c)
}

/// The decimal digits of a number say that number.
pub proof fn lemma_decimal_value(n: nat)
    ensures
        all_digits(decimal(n)),
        decimal(n).len() > 0,
        value(decimal(n)) == n,
    decreases n,
{
    lemma_dec(n);
    let d = decimal(n);
    assert forall|i: int| 0 <= i < d.len() implies is_digit(#[trigger] d[i]) by {
        assert(48 <= dec(n)[i] <= 57);
    }
    assert(d.last() as u32 == dec(n).last() as u32);
    if n < 10 {
        assert(d.drop_last() =~= Seq::empty());
        assert(value(d.drop_last()) == 0);
    } else {
        lemma_decimal_value(n / 10);
        assert(d.drop_last() =~= decimal(n / 10));
    }
}

/// A number's text says that number.
pub proof fn law_decimal_reads_back(n: nat)
    ensures
        number(decimal(n)) == Some(n),
{
    lemma_decimal_value(n);
    assert(is_digit(decimal(n)[0]));
}

// --- hexadecimal ------------------------------------------------------------------

/// What a hexadecimal digit in either case counts.
pub open spec fn hex_digit(b: u8) -> Option<u8> {
    if 48 <= b <= 57 {
        Some((b - 48) as u8)
    } else if 97 <= b <= 102 {
        Some((b - 87) as u8)
    } else if 65 <= b <= 70 {
        Some((b - 55) as u8)
    } else {
        None
    }
}

pub fn hex_digit_of(b: u8) -> (r: Option<u8>)
    ensures
        r == hex_digit(b),
        r is Some ==> r->0 < 16,
{
    if 48 <= b && b <= 57 {
        Some(b - 48)
    } else if 97 <= b && b <= 102 {
        Some(b - 87)
    } else if 65 <= b && b <= 70 {
        Some(b - 55)
    } else {
        None
    }
}

/// The byte that two characters say in hexadecimal. A plus sign may stand in the
/// place of a leading zero.
pub open spec fn hex_pair(a: u8, b: u8) -> Option<u8> {
    match (hex_digit(a), hex_digit(b)) {
        (Some(h), Some(l)) => Some((16 * h + l) as u8),
        (None, Some(l)) => if a == 43 {
            Some(l)
        } else {
            None
        },
        _ => None,
    }
}

pub fn hex_pair_of(a: u8, b: u8) -> (r: Option<u8>)
    ensures
        r == hex_pair(a, b),
{
    match (hex_digit_of(a), hex_digit_of(b)) {
        (Some(h), Some(l)) => Some(16 * h + l),
        (None, Some(l)) => {
            if a == 43 {
                Some(l)
            } else {
                None
            }
        },
        _ => None,
    }
}

/// The bytes that pairs of characters say.
pub open spec fn hex_pairs(s: Seq<u8>) -> Option<Seq<u8>>
    decreases s.len(),
{
    if s.len() == 0 {
        Some(Seq::empty())
    } else if s.len() == 1 {
        None
    } else {
        match (hex_pairs(s.drop_last().drop_last()), hex_pair(s[s.len() - 2], s[s.len() - 1])) {
            (Some(front), Some(b)) => Some(front.push(b)),
            _ => None,
        }
    }
}

/// The bytes that `s` says, two characters to a byte.
pub fn hex_pairs_of(s: &str) -> (r: Option<Vec<u8>>)
    ensures
        match r {
            Some(v) => hex_pairs(encode_utf8(s@)) == Some(v@),
            None => hex_pairs(encode_utf8(s@)) is None,
        },
{
    let b = s.as_bytes();
    let ghost all = encode_utf8(s@);
    if b.len() % 2 != 0 {
        proof {
            lemma_hex_odd(all);
        }
        return None;
    }
    let mut v: Vec<u8> = Vec::new();
    let mut i: usize = 0;
    assert(all.take(0) =~= Seq::empty());
    while i < b.len()
        invariant
            b@ == all,
            all == encode_utf8(s@),
            i <= b@.len(),
            b@.len() % 2 == 0,
            i % 2 == 0,
            hex_pairs(all.take(i as int)) == Some(v@),
        decreases b@.len() - i,
    {
        let ghost now = all.take(i + 2);
        assert(now.drop_last().drop_last() =~= all.take(i as int));
        match hex_pair_of(b[i], b[i + 1]) {
            Some(x) => v.push(x),
            None => {
                proof {
                    assert(hex_pairs(now) is None);
                    lemma_hex_bad(all, i + 2);
                }
                return None;
            },
        }
        i += 2;
    }
    assert(all.take(all.len() as int) =~= all);
    Some(v)
}

proof fn lemma_hex_odd(s: Seq<u8>)
    requires
        s.len() % 2 == 1,
    ensures
        hex_pairs(s) is None,
    decreases s.len(),
{
    if s.len() > 1 {
        lemma_hex_odd(s.drop_last().drop_last());
    }
}

proof fn lemma_hex_bad(s: Seq<u8>, n: int)
    requires
        0 <= n <= s.len(),
        n % 2 == 0,
        s.len() % 2 == 0,
        hex_pairs(s.take(n)) is None,
    ensures
        hex_pairs(s) is None,
    decreases s.len(),
{
    if n == s.len() {
        assert(s.take(n) =~= s);
    } else {
        let front = s.drop_last().drop_last();
        assert(front.take(n) =~= s.take(n));
        lemma_hex_bad(front, n);
    }
}

/// The lower-case hexadecimal digit that counts `n`.
pub open spec fn hex_char(n: int) -> u8 {
    if n < 10 {
        (48 + n) as u8
    } else {
        (87 + n) as u8
    }
}

/// Bytes in lower-case hexadecimal, in ASCII.
pub open spec fn hex_of(b: Seq<u8>) -> Seq<u8> {
    Seq::new(
        2 * b.len(),
        |i: int|
            if i % 2 == 0 {
                hex_char(b[i / 2] as int / 16)
            } else {
                hex_char(b[i / 2] as int % 16)
            },
    )
}

/// Bytes in lower-case hexadecimal.
pub open spec fn hex_text(b: Seq<u8>) -> Seq<char> {
    text::ascii(hex_of(b))
}

/// `hex::encode`: the bytes in lower-case hexadecimal, two digits each.
#[verifier::external_body]
pub(crate) fn hex_encode(b: &[u8]) -> (s: String)
    ensures
        s@ == hex_text(b@),
{
    hex::encode(b)
}

/// The bytes that hexadecimal digits of either case say, two digits each.
pub open spec fn unhex(s: Seq<u8>) -> Option<Seq<u8>> {
    if s.len() % 2 == 0 && (forall|i: int| 0 <= i < s.len()
        ==> hex_digit(#[trigger] s[i]) is Some) {
        Some(
            Seq::new(
                s.len() / 2,
                |i: int| (16 * hex_digit(s[2 * i])->0 + hex_digit(s[2 * i + 1])->0) as u8,
            ),
        )
    } else {
        None
    }
}

/// `hex::decode`: the bytes that the text says in hexadecimal of either case, or
/// `None` where its length is odd or a character is no hexadecimal digit.
#[verifier::external_body]
pub(crate) fn hex_decode(s: &str) -> (r: Option<Vec<u8>>)
    ensures
        match r {
            Some(v) => unhex(encode_utf8(s@)) == Some(v@),
            None => unhex(encode_utf8(s@)) is None,
        },
{
    hex::decode(s).ok()
}

/// What was written in hexadecimal reads back.
pub proof fn law_hex_reads_back(b: Seq<u8>)
    ensures
        unhex(hex_of(b)) == Some(b),
        encode_utf8(hex_text(b)) == hex_of(b),
{
    let h = hex_of(b);
    assert forall|i: int| 0 <= i < h.len() implies hex_digit(#[trigger] h[i]) is Some && h[i]
        < 128 by {
        let x = b[i / 2] as int;
        assert(0 <= x / 16 < 16 && 0 <= x % 16 < 16);
    }
    let back = unhex(h)->0;
    assert forall|i: int| 0 <= i < b.len() implies #[trigger] back[i] == b[i] by {
        let x = b[i] as int;
        assert((2 * i) % 2 == 0 && (2 * i) / 2 == i);
        assert((2 * i + 1) % 2 == 1 && (2 * i + 1) / 2 == i);
        assert(h[2 * i] == hex_char(x / 16));
        assert(h[2 * i + 1] == hex_char(x % 16));
        assert(hex_digit(h[2 * i]) == Some((x / 16) as u8));
        assert(hex_digit(h[2 * i + 1]) == Some((x % 16) as u8));
        assert(16 * (x / 16) + x % 16 == x);
    }
    assert(h.len() / 2 == b.len());
    assert(back =~= b);
    assert(is_ascii_chars(hex_text(b)));
    is_ascii_chars_encode_utf8(hex_text(b));
    assert(encode_utf8(hex_text(b)) =~= h);
}

} // verus!
