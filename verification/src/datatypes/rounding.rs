//! Numbers in floating point: how they compare, and that whole numbers of up to fifty-three
//! binary digits are kept exactly.
use vstd::prelude::*;

use super::binary64::{
    compared, exponent_mark, half_even, limit, literal, mantissa, negated, of_decimal, rounded,
    spacing, spelled, unsigned_part, Float, Order,
};
use super::facets::{
    lemma_bounding_names, lemma_digits, lemma_facet_names, lemma_one, lemma_written, written,
};
use super::lexical::{bare, lemma_kinds};
use super::natural::{lemma_power_positive, lemma_power_sum, lemma_powers_of_two, power};
use super::registry::Bindings;
use super::xsd::{xsd_accepts, xsd_same, TypeKind};
use crate::numbers::{decimal, law_decimal_denotes, value_of};
use crate::text::{all_digits, lemma_position, split_once, trim, Text};

verus! {

/// The comparison of numbers is an order: what is less has what is greater on the other side,
/// nothing lies between equals, and it goes on from one pair to the next. What is not a number
/// compares with nothing, itself included. Changing the signs turns it round.
pub proof fn law_numbers_are_ordered(a: Float, b: Float, c: Float)
    ensures
        compared(a, b) is None <==> a is NaN || b is NaN,
        compared(a, b) == Some(Order::Less) <==> compared(b, a) == Some(Order::Greater),
        compared(a, b) == Some(Order::Equal) <==> a == b && !(a is NaN),
        compared(a, b) == Some(Order::Less) && compared(b, c) == Some(Order::Less) ==> compared(
            a,
            c,
        ) == Some(Order::Less),
        compared(a, b) == Some(Order::Less) <==> compared(negated(b), negated(a)) == Some(
            Order::Less,
        ),
        a is Finite ==> compared(Float::Infinite { negative: true }, a) == Some(Order::Less)
            && compared(a, Float::Infinite { negative: false }) == Some(Order::Less),
{
}

/// The distance of neighbours about a number that is a multiple of a power of two, less than
/// two to the fifty-third times, divides that power.
proof fn lemma_spacing_divides(n: nat, d: nat, unit: nat, j: nat, k: nat)
    requires
        d > 0,
        unit > 0,
        k < 0x20_0000_0000_0000,
        n == d * (k * (unit * power(2, j))),
    ensures
        exists|i: nat| i <= j && #[trigger] (unit * power(2, i)) == spacing(n, d, unit),
    decreases j,
{
    if n < d * unit * 0x20_0000_0000_0000 {
        assert(unit * power(2, 0) == unit) by {
            assert(power(2, 0) == 1);
            assert(unit * 1 == unit);
        }
        assert(0 <= j);
    } else {
        if j == 0 {
            assert(power(2, 0) == 1);
            assert(d * (k * (unit * 1)) < d * unit * 0x20_0000_0000_0000) by (nonlinear_arith)
                requires
                    d > 0,
                    unit > 0,
                    k < 0x20_0000_0000_0000,
            ;
        } else {
            let m = (j - 1) as nat;
            let q = power(2, m);
            assert(power(2, j) == 2 * q);
            assert(unit * (2 * q) == (2 * unit) * q) by (nonlinear_arith);
            lemma_spacing_divides(n, d, 2 * unit, m, k);
            let i = choose|i: nat|
                i <= m && #[trigger] ((2 * unit) * power(2, i)) == spacing(n, d, 2 * unit);
            let r = power(2, i);
            assert(power(2, i + 1) == 2 * r);
            assert(unit * (2 * r) == (2 * unit) * r) by (nonlinear_arith);
            assert(unit * power(2, i + 1) == spacing(n, d, unit));
        }
    }
}

/// A number of at most fifty-three binary digits before trailing zeros is kept as it is.
pub proof fn law_rounding_keeps_what_fits(k: nat, j: nat, d: nat)
    requires
        d > 0,
        k < 0x20_0000_0000_0000,
    ensures
        rounded(d * (k * power(2, j)), d) == k * power(2, j),
{
    let p = power(2, j);
    let n = d * (k * p);
    assert(1 * power(2, j) == power(2, j));
    lemma_spacing_divides(n, d, 1, j, k);
    let i = choose|i: nat| i <= j && #[trigger] (1 * power(2, i)) == spacing(n, d, 1);
    let u = power(2, i);
    assert(spacing(n, d, 1) == u);
    lemma_power_sum(2, i, (j - i) as nat);
    lemma_power_positive(2, i);
    let v = power(2, (j - i) as nat);
    assert(p == u * v);
    let q = k * v;
    assert(n == q * (d * u)) by (nonlinear_arith)
        requires
            n == d * (k * p),
            p == u * v,
            q == k * v,
    ;
    let w = d * u;
    assert(w > 0) by (nonlinear_arith)
        requires
            d > 0,
            u >= 1,
            w == d * u,
    ;
    assert(n / w == q && n % w == 0) by (nonlinear_arith)
        requires
            n == q * w,
            w > 0,
    ;
    assert(half_even(n, w) == q);
    assert(q * u == k * p) by (nonlinear_arith)
        requires
            q == k * v,
            p == u * v,
    ;
}

/// The size of a whole number.
pub open spec fn size(n: int) -> nat {
    (if n < 0 {
        -n
    } else {
        n
    }) as nat
}

/// A whole number of up to fifty-three binary digits is the number of that many units of one.
pub proof fn lemma_nearest(n: int)
    requires
        -0x20_0000_0000_0000 < n < 0x20_0000_0000_0000,
    ensures
        of_decimal(n < 0, size(n), 0) == (Float::Finite { units: n * power(2, 1074) as int }),
{
    let k = size(n);
    let one = power(2, 1074);
    law_rounding_keeps_what_fits(k, 1074, 1);
    assert(power(10, 0) == 1);
    assert(k * 1 * one == 1 * (k * one)) by (nonlinear_arith);
    lemma_power_sum(2, 53, 1074);
    lemma_power_sum(2, 1127, 971);
    lemma_powers_of_two();
    lemma_power_positive(2, 971);
    lemma_power_positive(2, 1074);
    let far = power(2, 1127);
    let rest = power(2, 971);
    assert(k * one < far) by (nonlinear_arith)
        requires
            k < 0x20_0000_0000_0000,
            far == 0x20_0000_0000_0000 * one,
            one >= 1,
    ;
    assert(far <= far * rest) by (nonlinear_arith)
        requires
            rest >= 1,
    ;
    assert(limit() == far * rest);
    if n < 0 {
        assert(-((k * one) as int) == n * one) by (nonlinear_arith)
            requires
                k == -n,
        ;
    }
}

/// Digits hold no exponent.
pub proof fn lemma_no_exponent(t: Text)
    requires
        all_digits(t),
    ensures
        exponent_mark(t) == t.len(),
    decreases t.len(),
{
    if t.len() > 0 {
        let rest = t.drop_first();
        assert(crate::text::digit(t[0]));
        assert forall|i: int| 0 <= i < rest.len() implies crate::text::digit(
            #[trigger] rest[i],
        ) by {
            assert(rest[i] == t[i + 1]);
        }
        lemma_no_exponent(rest);
    }
}

/// A whole number as it is written denotes that number in floating point.
proof fn lemma_literal(n: int)
    requires
        -0x20_0000_0000_0000 < n < 0x20_0000_0000_0000,
    ensures
        trim(written(n)) == written(n),
        literal(written(n)) == Some(Float::Finite { units: n * power(2, 1074) as int }),
{
    let k = size(n);
    let digits = decimal(k);
    let t = written(n);
    lemma_written(n);
    lemma_digits(k);
    law_decimal_denotes(k);
    lemma_nearest(n);
    if n < 0 {
        assert(t.drop_first() =~= digits);
    } else {
        assert(t[0] != '-' && t[0] != '+');
    }
    assert(unsigned_part(t) == (n < 0, digits));
    reveal_strlit("inf");
    reveal_strlit("infinity");
    reveal_strlit("nan");
    assert(crate::text::digit(digits[0]));
    assert("inf"@[0] == 'i' && "infinity"@[0] == 'i' && "nan"@[0] == 'n');
    assert(!spelled(digits, "inf"@) && !spelled(digits, "infinity"@) && !spelled(digits, "nan"@));
    lemma_no_exponent(digits);
    lemma_position(digits, '.', digits.len());
    assert(split_once(digits, '.') is None);
    let none = Seq::<char>::empty();
    assert(digits + none =~= digits);
    assert(value_of(digits, 10) == k);
    assert(all_digits(none));
    assert(mantissa(n < 0, digits, 0) == Some(of_decimal(n < 0, k, 0)));
}

/// Whole numbers of up to fifty-three binary digits are numbers in floating point, bounded by
/// the facets as numbers are, and the same where the numbers are.
pub proof fn law_floats_are_bounded_as_numbers(n: int, m: int, bindings: Bindings)
    requires
        -0x20_0000_0000_0000 < n < 0x20_0000_0000_0000,
        -0x20_0000_0000_0000 < m < 0x20_0000_0000_0000,
    ensures
        xsd_accepts("double"@, bare(), written(n), bindings),
        xsd_accepts("float"@, bare(), written(n), bindings),
        xsd_accepts("double"@, seq![("minInclusive"@, written(m))], written(n), bindings) <==> m
            <= n,
        xsd_accepts("double"@, seq![("minExclusive"@, written(m))], written(n), bindings) <==> m
            < n,
        xsd_accepts("double"@, seq![("maxInclusive"@, written(m))], written(n), bindings) <==> n
            <= m,
        xsd_accepts("double"@, seq![("maxExclusive"@, written(m))], written(n), bindings) <==> n
            < m,
        xsd_same("double"@, written(m), bindings, written(n), bindings) <==> m == n,
        xsd_same("float"@, written(m), bindings, written(n), bindings) <==> m == n,
{
    lemma_kinds();
    lemma_facet_names();
    lemma_bounding_names();
    lemma_literal(n);
    lemma_literal(m);
    lemma_power_positive(2, 1074);
    let one = power(2, 1074) as int;
    assert((m < n <==> m * one < n * one) && (m == n <==> m * one == n * one)) by (nonlinear_arith)
        requires
            one >= 1,
    ;
    let t = written(n);
    let b = written(m);
    assert("minInclusive"@.len() != "enumeration"@.len());
    assert("minExclusive"@.len() != "enumeration"@.len());
    assert("maxInclusive"@.len() != "enumeration"@.len());
    assert("maxExclusive"@.len() != "enumeration"@.len());
    lemma_one(TypeKind::Double, "double"@, "minInclusive"@, b, t, bindings);
    lemma_one(TypeKind::Double, "double"@, "minExclusive"@, b, t, bindings);
    lemma_one(TypeKind::Double, "double"@, "maxInclusive"@, b, t, bindings);
    lemma_one(TypeKind::Double, "double"@, "maxExclusive"@, b, t, bindings);
}

} // verus!
