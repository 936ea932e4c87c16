//! Token tickers.

use vstd::prelude::*;

use crate::text;
use crate::text::{ascii_string, chars_of, trim};

verus! {

/// Whether `c` is an ASCII letter or digit.
pub open spec fn is_alphanumeric(c: char) -> bool {
    48 <= c as u32 <= 57 || 65 <= c as u32 <= 90 || 97 <= c as u32 <= 122
}

/// The ASCII upper-case form of `c`.
pub open spec fn upper(c: char) -> char {
    if 97 <= c as u32 <= 122 {
        ((c as u32 - 32) as u32) as char
    } else {
        c
    }
}

/// A ticker without the space around it and without one leading `$`.
pub open spec fn bare(input: Seq<char>) -> Seq<char> {
    let t = text::trimmed(input);
    if t.len() > 0 && t[0] == '$' {
        t.subrange(1, t.len() as int)
    } else {
        t
    }
}

/// Whether a bare ticker is one to ten ASCII letters and digits.
pub open spec fn is_ticker(t: Seq<char>) -> bool {
    &&& 1 <= t.len() <= 10
    &&& forall|i: int| 0 <= i < t.len() ==> is_alphanumeric(#[trigger] t[i])
}

/// The canonical form of a ticker.
pub open spec fn normal(input: Seq<char>) -> Option<Seq<char>> {
    if is_ticker(bare(input)) {
        Some(bare(input).map_values(|c: char| upper(c)))
    } else {
        None
    }
}

/// Normalize a ticker to its canonical form: strip a leading `$`, uppercase, and
/// require one to ten ASCII alphanumeric characters. `None` if invalid. This is
/// what makes `$doge`, `DOGE`, and `Doge` the same ticker.
pub fn normalize_ticker(input: &str) -> (r: Option<String>)
    ensures
        match r {
            Some(s) => normal(input@) == Some(s@),
            None => normal(input@) is None,
        },
{
    let chars = chars_of(input);
    let t = trim(&chars);
    let mut from: usize = 0;
    if t.len() > 0 && t[0] == '$' {
        from = 1;
    }
    let ghost b = bare(input@);
    assert(b =~= t@.subrange(from as int, t@.len() as int));
    let n = t.len() - from;
    if n == 0 || n > 10 {
        return None;
    }
    let mut out: Vec<u8> = Vec::new();
    let mut i: usize = from;
    while i < t.len()
        invariant
            from <= i <= t@.len(),
            b == bare(input@),
            b == t@.subrange(from as int, t@.len() as int),
            out@.len() == i - from,
            forall|j: int| 0 <= j < i - from ==> is_alphanumeric(#[trigger] b[j]),
            forall|j: int|
                0 <= j < out@.len() ==> (#[trigger] out@[j]) < 128
                    && out@[j] as char == upper(b[j]),
        decreases t@.len() - i,
    {
        let c: u32 = t[i] as u32;
        assert(b[i - from] == t@[i as int]);
        let digit = 48 <= c && c <= 57;
        let big = 65 <= c && c <= 90;
        let small = 97 <= c && c <= 122;
        if !digit && !big && !small {
            return None;
        }
        if small {
            out.push((c - 32) as u8);
        } else {
            out.push(c as u8);
        }
        i += 1;
    }
    assert(is_ticker(b));
    let s = ascii_string(out);
    assert(s@ =~= b.map_values(|c: char| upper(c)));
    Some(s)
}

proof fn lemma_untrimmed(t: Seq<char>)
    requires
        t.len() > 0,
        !text::is_space(t[0]),
        !text::is_space(t.last()),
    ensures
        text::trimmed(t) == t,
{
}

/// A canonical ticker is its own canonical form.
pub proof fn law_normal_is_stable(input: Seq<char>)
    requires
        normal(input) is Some,
    ensures
        normal(normal(input)->0) == normal(input),
{
    let t = normal(input)->0;
    let b = bare(input);
    assert forall|i: int| 0 <= i < t.len() implies is_alphanumeric(#[trigger] t[i]) && upper(t[i])
        == t[i] by {
        assert(is_alphanumeric(b[i]));
        assert(t[i] == upper(b[i]));
    }
    assert(is_alphanumeric(t[0]) && is_alphanumeric(t[t.len() - 1]));
    lemma_untrimmed(t);
    assert(bare(t) == t);
    assert(t.map_values(|c: char| upper(c)) =~= t);
}

/// Letter case and a leading `$` make no other ticker.
pub proof fn law_same_ticker(a: Seq<char>, b: Seq<char>)
    requires
        is_ticker(a),
        is_ticker(b),
        a.map_values(|c: char| upper(c)) == b.map_values(|c: char| upper(c)),
    ensures
        normal(a) == normal(b),
        normal(seq!['$'] + a) == normal(b),
{
    assert(is_alphanumeric(a[0]) && is_alphanumeric(a[a.len() - 1]));
    assert(is_alphanumeric(b[0]) && is_alphanumeric(b[b.len() - 1]));
    lemma_untrimmed(a);
    lemma_untrimmed(b);
    assert(bare(a) == a && bare(b) == b);
    let d = seq!['$'] + a;
    assert(d.last() == a.last());
    lemma_untrimmed(d);
    assert(d.subrange(1, d.len() as int) =~= a);
}

} // verus!
