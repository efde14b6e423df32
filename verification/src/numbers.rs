//! Numbers written in digits.
use vstd::prelude::*;

use crate::text::Text;

verus! {

/// The value of a digit in any radix up to sixteen; what is no digit has a value past
/// them all.
pub open spec fn digit_of(c: char) -> nat {
    if '0' <= c <= '9' {
        (c as nat - '0' as nat) as nat
    } else if 'a' <= c <= 'f' {
        (c as nat - 'a' as nat + 10) as nat
    } else if 'A' <= c <= 'F' {
        (c as nat - 'A' as nat + 10) as nat
    } else {
        16
    }
}

/// Whether every character is a digit of the radix.
pub open spec fn digits_of(t: Text, radix: nat) -> bool {
    forall|i: int| 0 <= i < t.len() ==> digit_of(#[trigger] t[i]) < radix
}

/// The number that digits denote, the most significant first.
pub open spec fn value_of(t: Text, radix: nat) -> nat
    decreases t.len(),
{
    if t.len() == 0 {
        0
    } else {
        value_of(t.drop_last(), radix) * radix + digit_of(t.last())
    }
}

/// The number that a text of digits denotes, where there are any and it is not too large.
pub open spec fn unsigned(t: Text, radix: nat, max: nat) -> Option<nat> {
    if t.len() > 0 && digits_of(t, radix) && value_of(t, radix) <= max {
        Some(value_of(t, radix))
    } else {
        None
    }
}

/// The value of a digit, or sixteen.
fn digit_value(c: char) -> (r: u64)
    ensures
        r == digit_of(c),
        r <= 16,
{
    if '0' <= c && c <= '9' {
        c as u64 - '0' as u64
    } else if 'a' <= c && c <= 'f' {
        c as u64 - 'a' as u64 + 10
    } else if 'A' <= c && c <= 'F' {
        c as u64 - 'A' as u64 + 10
    } else {
        16
    }
}

/// More digits do not make a number smaller.
pub proof fn lemma_value_grows(t: Text, k: int, radix: nat)
    requires
        radix >= 1,
        0 <= k <= t.len(),
    ensures
        value_of(t.take(k), radix) <= value_of(t, radix),
    decreases t.len() - k,
{
    if k < t.len() {
        lemma_value_grows(t, k + 1, radix);
        let more = t.take(k + 1);
        assert(more.drop_last() =~= t.take(k));
        let v = value_of(t.take(k), radix);
        assert(v * radix >= v) by (nonlinear_arith)
            requires
                radix >= 1,
        ;
    } else {
        assert(t.take(k) =~= t);
    }
}

/// The number that a text of digits denotes, where there are any and it is at most `max`.
pub fn parse_digits(v: &[char], radix: u64, max: u64) -> (r: Option<u64>)
    requires
        2 <= radix <= 16,
    ensures
        match r {
            Some(n) => unsigned(v@, radix as nat, max as nat) == Some(n as nat),
            None => unsigned(v@, radix as nat, max as nat) is None,
        },
{
    if v.len() == 0 {
        return None;
    }
    let mut value: u64 = 0;
    let mut large: bool = false;
    let mut i: usize = 0;
    while i < v.len()
        invariant
            i <= v.len(),
            2 <= radix <= 16,
            !large ==> value == value_of(v@.take(i as int), radix as nat) && value <= max,
            large ==> value_of(v@, radix as nat) > max,
            forall|j: int| 0 <= j < i ==> digit_of(#[trigger] v@[j]) < radix,
        decreases v.len() - i,
    {
        let d: u64 = digit_value(v[i]);
        if d >= radix {
            assert(digit_of(v@[i as int]) >= radix);
            return None;
        }
        if !large {
            assert(v@.take(i + 1).drop_last() =~= v@.take(i as int));
            assert(value as u128 * radix as u128 <= 0xffff_ffff_ffff_ffff * 16) by (nonlinear_arith)
                requires
                    radix <= 16,
                    value <= 0xffff_ffff_ffff_ffff,
            ;
            let next: u128 = value as u128 * radix as u128 + d as u128;
            assert(next == value_of(v@.take(i + 1), radix as nat));
            if next > max as u128 {
                proof {
                    lemma_value_grows(v@, i + 1, radix as nat);
                }
                large = true;
            } else {
                value = next as u64;
            }
        }
        i += 1;
    }
    assert(v@.take(v@.len() as int) =~= v@);
    if large {
        None
    } else {
        Some(value)
    }
}

/// The number that a text denotes: digits, with a `+` before them or none.
pub open spec fn natural(t: Text, max: nat) -> Option<nat> {
    if t.len() > 0 && t[0] == '+' {
        unsigned(t.drop_first(), 10, max)
    } else {
        unsigned(t, 10, max)
    }
}

/// The number that a text denotes: digits, with a `+` or a `-` before them or none, where
/// a negative number may be one more than a positive one.
pub open spec fn integer(t: Text, max: nat) -> Option<int> {
    if t.len() > 0 && t[0] == '-' {
        match unsigned(t.drop_first(), 10, max + 1) {
            Some(n) => Some(-(n as int)),
            None => None,
        }
    } else {
        match natural(t, max) {
            Some(n) => Some(n as int),
            None => None,
        }
    }
}

/// The number that a text denotes: digits, with a `+` before them or none.
pub fn parse_natural(v: &[char], max: u64) -> (r: Option<u64>)
    ensures
        match r {
            Some(n) => natural(v@, max as nat) == Some(n as nat),
            None => natural(v@, max as nat) is None,
        },
{
    if v.len() > 0 && v[0] == '+' {
        let rest = vstd::slice::slice_subrange(v, 1, v.len());
        assert(rest@ =~= v@.drop_first());
        parse_digits(rest, 10, max)
    } else {
        parse_digits(v, 10, max)
    }
}

/// The number that a text denotes: digits, with a `+` or a `-` before them or none.
pub fn parse_integer(v: &[char], max: i64) -> (r: Option<i64>)
    requires
        max >= 0,
    ensures
        match r {
            Some(n) => integer(v@, max as nat) == Some(n as int),
            None => integer(v@, max as nat) is None,
        },
{
    if v.len() > 0 && v[0] == '-' {
        let rest = vstd::slice::slice_subrange(v, 1, v.len());
        assert(rest@ =~= v@.drop_first());
        match parse_digits(rest, 10, max as u64 + 1) {
            Some(n) => {
                if n == 0x8000_0000_0000_0000 {
                    Some(-0x7fff_ffff_ffff_ffff - 1)
                } else {
                    Some(-(n as i64))
                }
            },
            None => None,
        }
    } else {
        match parse_natural(v, max as u64) {
            Some(n) => Some(n as i64),
            None => None,
        }
    }
}

/// The digit with a value.
pub open spec fn digit_char(d: nat) -> char {
    if d == 0 {
        '0'
    } else if d == 1 {
        '1'
    } else if d == 2 {
        '2'
    } else if d == 3 {
        '3'
    } else if d == 4 {
        '4'
    } else if d == 5 {
        '5'
    } else if d == 6 {
        '6'
    } else if d == 7 {
        '7'
    } else if d == 8 {
        '8'
    } else {
        '9'
    }
}

/// The decimal digits of a number, without leading zeros.
pub open spec fn decimal(n: nat) -> Text
    decreases n,
{
    if n < 10 {
        seq![digit_char(n)]
    } else {
        decimal(n / 10).push(digit_char(n % 10))
    }
}

/// The decimal digits of a number, without leading zeros.
pub fn to_decimal(n: u64) -> (r: String)
    ensures
        r@ == decimal(n as nat),
    decreases n,
{
    let d: u64 = n % 10;
    let c = if d == 0 {
        '0'
    } else if d == 1 {
        '1'
    } else if d == 2 {
        '2'
    } else if d == 3 {
        '3'
    } else if d == 4 {
        '4'
    } else if d == 5 {
        '5'
    } else if d == 6 {
        '6'
    } else if d == 7 {
        '7'
    } else if d == 8 {
        '8'
    } else {
        '9'
    };
    let mut out = if n < 10 {
        String::new()
    } else {
        to_decimal(n / 10)
    };
    out.push(c);
    proof {
        if n < 10 {
            assert(out@ =~= seq![digit_char(n as nat)]);
        }
    }
    out
}

/// What the decimal digits of a number denote is the number.
pub proof fn law_decimal_denotes(n: nat)
    ensures
        decimal(n).len() > 0,
        digits_of(decimal(n), 10),
        value_of(decimal(n), 10) == n,
    decreases n,
{
    reveal_with_fuel(value_of, 2);
    if n < 10 {
        assert(decimal(n).drop_last() =~= Seq::<char>::empty());
    } else {
        law_decimal_denotes(n / 10);
        let head = decimal(n / 10);
        assert(decimal(n).drop_last() =~= head);
        assert forall|i: int| 0 <= i < decimal(n).len() implies digit_of(#[trigger] decimal(n)[i])
            < 10 by {
            if i < head.len() {
                assert(decimal(n)[i] == head[i]);
            }
        }
    }
}

/// Different numbers have different decimal digits.
pub proof fn law_decimal_injective(m: nat, n: nat)
    requires
        decimal(m) == decimal(n),
    ensures
        m == n,
{
    law_decimal_denotes(m);
    law_decimal_denotes(n);
}

} // verus!
