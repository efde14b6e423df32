//! Decimal numbers with a point: what they denote, whatever zeros stand around them, and how
//! they compare.
use vstd::prelude::*;

use super::binary64::{unsigned_part, Order};
use super::decimal::{
    decimal_of, decimal_order, lemma_equal_at, lemma_scaled_more, scaled_to,
    without_leading_zeros, without_trailing_zeros, DecimalModel,
};
use super::facets::{lemma_bounding_names, lemma_facet_names, lemma_one, lemma_trim_kept};
use super::lexical::{bare, lemma_decimal_kind};
use super::natural::{lemma_power_positive, power};
use super::registry::Bindings;
use super::xsd::{xsd_accepts, xsd_same, TypeKind};
use crate::numbers::value_of;
use crate::text::{all_digits, digit, lemma_position, split_once, trim, white_space, Text};

verus! {

/// A zero in front does not count.
proof fn lemma_zero_first(t: Text)
    ensures
        value_of(seq!['0'] + t, 10) == value_of(t, 10),
    decreases t.len(),
{
    let w = seq!['0'] + t;
    if t.len() == 0 {
        assert(w.drop_last().len() == 0);
        assert(w.last() == '0');
        assert(value_of(w.drop_last(), 10) == 0);
        assert(value_of(t, 10) == 0);
    } else {
        assert(w.drop_last() =~= seq!['0'] + t.drop_last());
        assert(w.last() == t.last());
        lemma_zero_first(t.drop_last());
    }
}

/// Zeros in front do not count.
proof fn lemma_leading(t: Text, rest: Text)
    ensures
        value_of(without_leading_zeros(t) + rest, 10) == value_of(t + rest, 10),
    decreases t.len(),
{
    if t.len() > 0 && t[0] == '0' {
        let s = t.drop_first();
        lemma_leading(s, rest);
        lemma_zero_first(s + rest);
        assert(t + rest =~= seq!['0'] + (s + rest));
    }
}

/// Each zero at the end of a fraction is a factor of ten.
proof fn lemma_trailing(w: Text, f: Text)
    ensures
        without_trailing_zeros(f).len() <= f.len(),
        value_of(w + f, 10) == value_of(w + without_trailing_zeros(f), 10) * power(
            10,
            (f.len() - without_trailing_zeros(f).len()) as nat,
        ),
    decreases f.len(),
{
    let g = without_trailing_zeros(f);
    if f.len() > 0 && f.last() == '0' {
        let h = f.drop_last();
        lemma_trailing(w, h);
        assert((w + f).drop_last() =~= w + h);
        assert((w + f).last() == '0');
        let e = (h.len() - g.len()) as nat;
        let v = value_of(w + g, 10);
        let p = power(10, e);
        assert(power(10, e + 1) == 10 * p);
        assert((v * p) * 10 == v * (10 * p)) by (nonlinear_arith);
    } else {
        assert(power(10, 0) == 1);
        let v = value_of(w + f, 10);
        assert(v * 1 == v);
    }
}

/// A decimal number as it is written.
pub open spec fn point_text(negative: bool, whole: Text, fraction: Text) -> Text {
    if negative {
        seq!['-'] + (whole + seq!['.'] + fraction)
    } else {
        whole + seq!['.'] + fraction
    }
}

/// The number that digits denote, of the last decimal place.
pub open spec fn point_value(negative: bool, whole: Text, fraction: Text) -> int {
    let n = value_of(whole + fraction, 10) as int;
    if negative {
        -n
    } else {
        n
    }
}

/// Whether texts are the digits before and after the point.
pub open spec fn point_digits(whole: Text, fraction: Text) -> bool {
    all_digits(whole) && all_digits(fraction) && whole.len() > 0 && fraction.len() > 0
}

/// A decimal number denotes what its digits do.
proof fn lemma_point(negative: bool, whole: Text, fraction: Text)
    requires
        point_digits(whole, fraction),
    ensures
        ({
            let t = point_text(negative, whole, fraction);
            &&& trim(t) == t
            &&& decimal_of(t) is Some
            &&& decimal_of(t)->0.fraction.len() <= fraction.len()
            &&& scaled_to(decimal_of(t)->0, fraction.len()) == point_value(
                negative,
                whole,
                fraction,
            )
        }),
{
    let t = point_text(negative, whole, fraction);
    let rest = whole + seq!['.'] + fraction;
    assert(digit(whole[0]) && digit(fraction[fraction.len() - 1]));
    assert(rest[0] == whole[0]);
    assert(t.last() == fraction[fraction.len() - 1]);
    assert(t[0] == '-' || t[0] == whole[0]);
    assert(!white_space('-'));
    lemma_trim_kept(t);
    if negative {
        assert(t.drop_first() =~= rest);
    }
    assert(unsigned_part(t) == (negative, rest));
    assert forall|j: int| 0 <= j < whole.len() implies #[trigger] rest[j] != '.' by {
        assert(digit(whole[j]));
    }
    lemma_position(rest, '.', whole.len());
    assert(rest.take(whole.len() as int) =~= whole);
    assert(rest.skip(whole.len() as int + 1) =~= fraction);
    assert(split_once(rest, '.') == Some((whole, fraction)));
    let d = decimal_of(t)->0;
    lemma_trailing(whole, fraction);
    lemma_leading(whole, d.fraction);
    let size = value_of(d.whole + d.fraction, 10);
    assert(size == value_of(whole + d.fraction, 10));
    if d.whole.len() + d.fraction.len() == 0 {
        assert((d.whole + d.fraction).len() == 0);
        assert(size == 0);
        let p = power(10, (fraction.len() - d.fraction.len()) as nat);
        assert(size * p == 0) by (nonlinear_arith)
            requires
                size == 0,
        ;
    }
}

/// The order of two decimal numbers is that of what they are of any place past their last.
proof fn lemma_order_at(a: DecimalModel, b: DecimalModel, places: nat)
    requires
        a.fraction.len() <= places,
        b.fraction.len() <= places,
    ensures
        decimal_order(a, b) == Order::Less <==> scaled_to(a, places) < scaled_to(b, places),
        decimal_order(a, b) == Order::Equal <==> scaled_to(a, places) == scaled_to(b, places),
{
    let least = if a.fraction.len() > b.fraction.len() {
        a.fraction.len()
    } else {
        b.fraction.len()
    };
    lemma_equal_at(a, b, places);
    lemma_scaled_more(a, least, places);
    lemma_scaled_more(b, least, places);
    lemma_power_positive(10, (places - least) as nat);
    let x = scaled_to(a, least);
    let y = scaled_to(b, least);
    let p = power(10, (places - least) as nat) as int;
    assert(x < y <==> x * p < y * p) by (nonlinear_arith)
        requires
            p >= 1,
    ;
}

/// Decimal numbers with as many digits behind the point are bounded by the facets as the
/// numbers that their digits denote, and the same where those are.
#[verifier::rlimit(40)]
pub proof fn law_decimal_numbers_are_ordered(
    negative: bool,
    whole: Text,
    fraction: Text,
    below: bool,
    other: Text,
    part: Text,
    bindings: Bindings,
)
    requires
        point_digits(whole, fraction),
        point_digits(other, part),
        fraction.len() == part.len(),
    ensures
        ({
            let t = point_text(negative, whole, fraction);
            let b = point_text(below, other, part);
            let x = point_value(negative, whole, fraction);
            let y = point_value(below, other, part);
            &&& xsd_accepts("decimal"@, bare(), t, bindings)
            &&& xsd_accepts("decimal"@, seq![("minInclusive"@, b)], t, bindings) <==> y <= x
            &&& xsd_accepts("decimal"@, seq![("minExclusive"@, b)], t, bindings) <==> y < x
            &&& xsd_accepts("decimal"@, seq![("maxInclusive"@, b)], t, bindings) <==> x <= y
            &&& xsd_accepts("decimal"@, seq![("maxExclusive"@, b)], t, bindings) <==> x < y
            &&& xsd_same("decimal"@, t, bindings, b, bindings) <==> x == y
        }),
{
    let t = point_text(negative, whole, fraction);
    let b = point_text(below, other, part);
    let kind = TypeKind::Decimal { integer_only: false, min: None, max: None };
    lemma_facet_names();
    lemma_bounding_names();
    lemma_decimal_kind();
    lemma_point(negative, whole, fraction);
    lemma_point(below, other, part);
    let d = decimal_of(t)->0;
    let e = decimal_of(b)->0;
    lemma_order_at(d, e, fraction.len());
    lemma_order_at(e, d, fraction.len());
    assert("minInclusive"@.len() != "enumeration"@.len());
    assert("minExclusive"@.len() != "enumeration"@.len());
    assert("maxInclusive"@.len() != "enumeration"@.len());
    assert("maxExclusive"@.len() != "enumeration"@.len());
    lemma_one(kind, "decimal"@, "minInclusive"@, b, t, bindings);
    lemma_one(kind, "decimal"@, "minExclusive"@, b, t, bindings);
    lemma_one(kind, "decimal"@, "maxInclusive"@, b, t, bindings);
    lemma_one(kind, "decimal"@, "maxExclusive"@, b, t, bindings);
}

/// Decimal numbers are the same where they compare so.
proof fn lemma_same_decimals(
    a: Text,
    b: Text,
    d: DecimalModel,
    e: DecimalModel,
    bindings: Bindings,
)
    requires
        trim(a) == a,
        trim(b) == b,
        decimal_of(a) == Some(d),
        decimal_of(b) == Some(e),
    ensures
        xsd_same("decimal"@, a, bindings, b, bindings) <==> decimal_order(d, e) == Order::Equal,
{
    lemma_decimal_kind();
}

/// A zero at the end makes ten times the digits.
proof fn lemma_longer(negative: bool, whole: Text, fraction: Text)
    ensures
        point_value(negative, whole, fraction.push('0')) == point_value(negative, whole, fraction)
            * 10,
{
    let longer = fraction.push('0');
    assert((whole + longer).drop_last() =~= whole + fraction);
    assert((whole + longer).last() == '0');
    assert(value_of(whole + longer, 10) == value_of(whole + fraction, 10) * 10);
}

/// A zero at the end of a decimal number makes no difference.
pub proof fn law_zeros_at_the_end_do_not_count(
    negative: bool,
    whole: Text,
    fraction: Text,
    bindings: Bindings,
)
    requires
        point_digits(whole, fraction),
    ensures
        xsd_same(
            "decimal"@,
            point_text(negative, whole, fraction),
            bindings,
            point_text(negative, whole, fraction.push('0')),
            bindings,
        ),
{
    let longer = fraction.push('0');
    let n = fraction.len();
    assert(all_digits(longer)) by {
        assert(digit('0'));
        assert forall|i: int| 0 <= i < longer.len() implies digit(#[trigger] longer[i]) by {
            if i < fraction.len() {
                assert(longer[i] == fraction[i]);
            }
        }
    }
    let a = point_text(negative, whole, fraction);
    let b = point_text(negative, whole, longer);
    lemma_point(negative, whole, fraction);
    lemma_point(negative, whole, longer);
    let d = decimal_of(a)->0;
    let e = decimal_of(b)->0;
    lemma_longer(negative, whole, fraction);
    lemma_scaled_more(d, n, n + 1);
    assert(power(10, 1) == 10) by {
        assert(power(10, 0) == 1);
        reveal_with_fuel(power, 2);
    }
    assert(scaled_to(d, n + 1) == scaled_to(e, n + 1));
    lemma_equal_at(d, e, n + 1);
    lemma_same_decimals(a, b, d, e, bindings);
}

} // verus!
