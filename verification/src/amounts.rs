//! Amounts of LAT as text: base units with five decimals.

use vstd::prelude::*;

use crate::numbers;
use crate::numbers::{parse_u64_chars, push_decimal};
use crate::text;
use crate::text::{chars_of, find_from};

verus! {

/// Base units to one LAT.
pub const UNITS: u64 = 100_000;

/// The five decimals of a fraction of one LAT, in ASCII.
pub open spec fn decimals(n: nat) -> Seq<u8> {
    seq![
        (48 + n / 10_000 % 10) as u8,
        (48 + n / 1_000 % 10) as u8,
        (48 + n / 100 % 10) as u8,
        (48 + n / 10 % 10) as u8,
        (48 + n % 10) as u8,
    ]
}

/// An amount in LAT, in ASCII.
pub open spec fn amount_bytes(units: u64) -> Seq<u8> {
    numbers::dec((units / UNITS) as nat) + seq![46u8] + decimals((units % UNITS) as nat)
}

/// An amount in LAT, with five decimals.
pub open spec fn amount_text(units: u64) -> Seq<char> {
    text::ascii(amount_bytes(units))
}

/// An amount in LAT, with five decimals.
pub fn amount_string(units: u64) -> (s: String)
    ensures
        s@ == amount_text(units),
{
    let mut v: Vec<u8> = Vec::new();
    push_decimal(&mut v, units / UNITS);
    v.push(46);
    let n: u64 = units % UNITS;
    v.push((48 + n / 10_000 % 10) as u8);
    v.push((48 + n / 1_000 % 10) as u8);
    v.push((48 + n / 100 % 10) as u8);
    v.push((48 + n / 10 % 10) as u8);
    v.push((48 + n % 10) as u8);
    proof {
        assert(v@ =~= amount_bytes(units));
        numbers::lemma_dec((units / UNITS) as nat);
    }
    text::ascii_string(v)
}

/// Where the first point in `s` is, or its length where it has none.
pub open spec fn point(s: Seq<char>) -> int {
    text::find(s, '.')
}

/// What stands before the point.
pub open spec fn whole(s: Seq<char>) -> Seq<char> {
    s.take(point(s))
}

/// The five places after the point: what stands there, cut short or filled up
/// with zeroes.
pub open spec fn places(s: Seq<char>) -> Seq<char> {
    Seq::new(
        5,
        |i: int|
            if point(s) + 1 + i < s.len() {
                s[point(s) + 1 + i]
            } else {
                '0'
            },
    )
}

/// The base units that an amount in LAT says. Further decimals are ignored.
pub open spec fn amount_of(s: Seq<char>) -> Option<nat> {
    match (numbers::number(whole(s)), numbers::number(places(s))) {
        (Some(i), Some(f)) => Some(i * UNITS as nat + f),
        _ => None,
    }
}

/// The base units that an amount in LAT says. `None`: it says none, or more than
/// can be counted.
pub fn parse_amount(s: &str) -> (r: Option<u64>)
    ensures
        match r {
            Some(n) => amount_of(s@) == Some(n as nat),
            None => amount_of(s@) is None || amount_of(s@)->0 > u64::MAX,
        },
{
    let c = chars_of(s);
    let at = find_from(&c, 0, '.');
    assert(c@.subrange(0, c@.len() as int) =~= c@);
    let mut front: Vec<char> = Vec::new();
    let mut i: usize = 0;
    while i < at
        invariant
            i <= at <= c@.len(),
            front@ == c@.take(i as int),
        decreases at - i,
    {
        front.push(c[i]);
        i += 1;
        assert(front@ =~= c@.take(i as int));
    }
    let mut frac: Vec<char> = Vec::new();
    let mut k: usize = 0;
    while k < 5
        invariant
            k <= 5,
            at <= c@.len(),
            at == point(c@),
            frac@.len() == k,
            forall|j: int| 0 <= j < k ==> #[trigger] frac@[j] == places(c@)[j],
        decreases 5 - k,
    {
        if k + 1 < c.len() - at {
            frac.push(c[at + 1 + k]);
        } else {
            frac.push('0');
        }
        k += 1;
    }
    assert(frac@ =~= places(c@));
    match (parse_u64_chars(&front), parse_u64_chars(&frac)) {
        (Some(n), Some(f)) => {
            let t: u128 = (n as u128) * (UNITS as u128) + (f as u128);
            if t > u64::MAX as u128 {
                return None;
            }
            Some(t as u64)
        },
        _ => {
            proof {
                lemma_places_small(c@);
                if numbers::number(whole(c@)) is Some {
                    let n = numbers::number(whole(c@))->0;
                    assert(n > u64::MAX ==> n * UNITS as nat > u64::MAX) by (nonlinear_arith)
                        requires
                            UNITS as nat >= 1,
                    ;
                }
            }
            None
        },
    }
}

/// Five places never say more than fits.
proof fn lemma_places_small(s: Seq<char>)
    ensures
        numbers::number(places(s)) is Some ==> numbers::number(places(s))->0 <= 99_999,
{
    let p = places(s);
    if numbers::number(p) is Some {
        let t = numbers::unsigned(p);
        lemma_value_bound(t);
        if t.len() == 5 {
            assert(pow10(5) == 100_000) by {
                reveal_with_fuel(pow10, 6);
            }
        } else {
            assert(t.len() == 4);
            assert(pow10(4) == 10_000) by {
                reveal_with_fuel(pow10, 5);
            }
        }
    }
}

spec fn pow10(n: nat) -> nat
    decreases n,
{
    if n == 0 {
        1
    } else {
        10 * pow10((n - 1) as nat)
    }
}

proof fn lemma_value_bound(s: Seq<char>)
    requires
        numbers::all_digits(s),
    ensures
        numbers::value(s) < pow10(s.len()),
    decreases s.len(),
{
    if s.len() > 0 {
        let front = s.drop_last();
        assert forall|i: int| 0 <= i < front.len() implies numbers::is_digit(
            #[trigger] front[i],
        ) by {
            assert(numbers::is_digit(s[i]));
        }
        lemma_value_bound(front);
        assert(numbers::is_digit(s[s.len() - 1]));
    }
}

/// What five digits say.
pub proof fn lemma_five_digits(d: Seq<char>)
    requires
        d.len() == 5,
        numbers::all_digits(d),
    ensures
        numbers::value(d) == 10_000 * numbers::digit(d[0]) + 1_000 * numbers::digit(d[1]) + 100
            * numbers::digit(d[2]) + 10 * numbers::digit(d[3]) + numbers::digit(d[4]),
{
    let d4 = d.drop_last();
    let d3 = d4.drop_last();
    let d2 = d3.drop_last();
    let d1 = d2.drop_last();
    assert(d1.drop_last().len() == 0);
    assert(numbers::value(d1) == numbers::digit(d[0])) by {
        assert(numbers::value(d1.drop_last()) == 0);
    }
    assert(numbers::value(d2) == numbers::value(d1) * 10 + numbers::digit(d[1]));
    assert(numbers::value(d3) == numbers::value(d2) * 10 + numbers::digit(d[2]));
    assert(numbers::value(d4) == numbers::value(d3) * 10 + numbers::digit(d[3]));
    assert(numbers::value(d) == numbers::value(d4) * 10 + numbers::digit(d[4]));
}

/// A number is the sum of its digits' worths.
proof fn lemma_digits_sum(n: nat)
    requires
        n < 100_000,
    ensures
        10_000 * (n / 10_000 % 10) + 1_000 * (n / 1_000 % 10) + 100 * (n / 100 % 10) + 10 * (n / 10
            % 10) + n % 10 == n,
{
    let a = n / 10;
    let b = n / 100;
    let c = n / 1_000;
    let d = n / 10_000;
    assert(b == a / 10 && c == b / 10 && d == c / 10);
    assert(n == 10 * a + n % 10);
    assert(a == 10 * b + a % 10);
    assert(b == 10 * c + b % 10);
    assert(c == 10 * d + c % 10);
    assert(d % 10 == d);
}

proof fn lemma_decimals(n: nat)
    requires
        n < 100_000,
    ensures
        numbers::number(text::ascii(decimals(n))) == Some(n),
        forall|i: int|
            0 <= i < 5 ==> numbers::is_digit(#[trigger] text::ascii(decimals(n))[i]),
{
    let d = text::ascii(decimals(n));
    assert forall|i: int| 0 <= i < 5 implies numbers::is_digit(#[trigger] d[i]) by {
        assert(d[i] as u32 == decimals(n)[i] as u32);
    }
    assert(numbers::unsigned(d) == d) by {
        assert(numbers::is_digit(d[0]));
    }
    assert(numbers::digit(d[0]) == n / 10_000 % 10);
    assert(numbers::digit(d[1]) == n / 1_000 % 10);
    assert(numbers::digit(d[2]) == n / 100 % 10);
    assert(numbers::digit(d[3]) == n / 10 % 10);
    assert(numbers::digit(d[4]) == n % 10);
    lemma_five_digits(d);
    lemma_digits_sum(n);
}

/// An amount that was written reads back, whatever follows its decimals.
pub proof fn law_amount_reads_back(units: u64, more: Seq<char>)
    ensures
        amount_of(amount_text(units) + more) == Some(units as nat),
{
    let n = (units / UNITS) as nat;
    let f = (units % UNITS) as nat;
    let s = amount_text(units) + more;
    let d = numbers::decimal(n);
    let e = text::ascii(decimals(f));
    numbers::lemma_decimal_value(n);
    numbers::law_decimal_reads_back(n);
    lemma_decimals(f);
    assert(amount_text(units) =~= d + seq!['.'] + e);
    assert forall|i: int| 0 <= i < d.len() implies s[i] != '.' by {
        assert(s[i] == d[i]);
        assert(numbers::is_digit(d[i]));
    }
    assert(s[d.len() as int] == '.');
    text::lemma_find(s, '.', d.len() as int);
    assert(whole(s) =~= d);
    assert(places(s) =~= e);
    assert(n * UNITS as nat + f == units);
}

} // verus!
