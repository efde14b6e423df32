//! Numbers in binary floating point of double precision: how a literal is rounded to one,
//! and sums, products and comparisons of them.
//!
//! Every finite one is a whole number of units, the unit being the smallest positive one
//! (two to the power of minus 1074). The two zeros are not told apart: nothing here
//! depends on the sign of a zero.
use vstd::prelude::*;
use vstd::slice::slice_subrange;

use super::natural::{
    lemma_power_grows, lemma_power_positive, lemma_power_sum, lemma_powers_of_two, power, Natural,
};
use crate::numbers::{lemma_value_grows, value_of};
use crate::text::{
    all_digits, copy_chars, digit, is_ascii_digits, push_all, split_at_first, split_once, to_chars,
    Text,
};

verus! {

/// The value of a number.
pub enum Float {
    NaN,
    Infinite { negative: bool },
    Finite { units: int },
}

/// How one number compares with another.
#[derive(Clone, Copy, Debug, PartialEq, Eq, Structural)]
pub enum Order {
    Less,
    Equal,
    Greater,
}

/// The nearest whole number to a quotient; of two, the even one.
pub open spec fn half_even(n: nat, d: nat) -> nat {
    let q = n / d;
    let r = n % d;
    if 2 * r < d || (2 * r == d && q % 2 == 0) {
        q
    } else {
        q + 1
    }
}

/// The distance, in units, of neighbouring numbers about a quotient: the least power of
/// two, from `unit` on, of which the quotient has less than two to the fifty-third.
pub open spec fn spacing(n: nat, d: nat, unit: nat) -> nat
    decreases n - unit,
{
    if d == 0 || unit == 0 || n < d * unit * 0x20_0000_0000_0000 {
        unit
    } else {
        proof {
            assert(n >= 2 * unit) by (nonlinear_arith)
                requires
                    n >= d * unit * 0x20_0000_0000_0000,
                    d >= 1,
                    unit >= 1,
            ;
        }
        spacing(n, d, 2 * unit)
    }
}

/// The nearest number of units to a quotient that has at most fifty-three binary digits
/// before trailing zeros.
pub open spec fn rounded(n: nat, d: nat) -> nat {
    let unit = spacing(n, d, 1);
    half_even(n, d * unit) * unit
}

/// The number of units past the largest finite number.
pub open spec fn limit() -> nat {
    power(2, 2098)
}

/// The number nearest to a quotient of units.
pub open spec fn nearest(negative: bool, n: nat, d: nat) -> Float {
    let units = rounded(n, d);
    if units >= limit() {
        Float::Infinite { negative }
    } else if negative {
        Float::Finite { units: -(units as int) }
    } else {
        Float::Finite { units: units as int }
    }
}

/// The number nearest to a whole number of units.
pub open spec fn nearest_units(units: int) -> Float {
    if units < 0 {
        nearest(true, (-units) as nat, 1)
    } else {
        nearest(false, units as nat, 1)
    }
}

/// The number nearest to a whole number.
pub open spec fn of_integer(n: int) -> Float {
    nearest_units(n * power(2, 1074) as int)
}

/// The sum of two numbers.
pub open spec fn sum(a: Float, b: Float) -> Float {
    match (a, b) {
        (Float::Finite { units: x }, Float::Finite { units: y }) => nearest_units(x + y),
        (Float::Infinite { negative: x }, Float::Infinite { negative: y }) => if x == y {
            a
        } else {
            Float::NaN
        },
        (Float::NaN, _) => Float::NaN,
        (_, Float::NaN) => Float::NaN,
        (Float::Infinite { .. }, _) => a,
        _ => b,
    }
}

/// The product of a number and a positive whole number that is a number itself.
pub open spec fn scaled(a: Float, factor: nat) -> Float {
    match a {
        Float::Finite { units } => nearest_units(units * factor as int),
        _ => a,
    }
}

/// The number with the other sign.
pub open spec fn negated(a: Float) -> Float {
    match a {
        Float::NaN => a,
        Float::Infinite { negative } => Float::Infinite { negative: !negative },
        Float::Finite { units } => Float::Finite { units: -units },
    }
}

/// How two numbers compare; one that is none compares with nothing.
pub open spec fn compared(a: Float, b: Float) -> Option<Order> {
    match (a, b) {
        (Float::NaN, _) => None,
        (_, Float::NaN) => None,
        (Float::Finite { units: x }, Float::Finite { units: y }) => Some(
            if x < y {
                Order::Less
            } else if x == y {
                Order::Equal
            } else {
                Order::Greater
            },
        ),
        (Float::Infinite { negative: x }, Float::Infinite { negative: y }) => Some(
            if x == y {
                Order::Equal
            } else if x {
                Order::Less
            } else {
                Order::Greater
            },
        ),
        (Float::Infinite { negative }, _) => Some(
            if negative {
                Order::Less
            } else {
                Order::Greater
            },
        ),
        (_, Float::Infinite { negative }) => Some(
            if negative {
                Order::Greater
            } else {
                Order::Less
            },
        ),
    }
}

/// The number nearest to `m` times a power of ten.
pub open spec fn of_decimal(negative: bool, m: nat, e: int) -> Float {
    if e >= 0 {
        nearest(negative, m * power(10, e as nat) * power(2, 1074), 1)
    } else {
        nearest(negative, m * power(2, 1074), power(10, (-e) as nat))
    }
}

/// A letter in lower case.
pub open spec fn lower(c: char) -> char {
    if 'A' <= c <= 'Z' {
        ((c as u32) + 32) as char
    } else {
        c
    }
}

/// Whether a text spells a word of lower-case letters, in whatever case.
pub open spec fn spelled(t: Text, word: Text) -> bool {
    t.len() == word.len() && forall|i: int|
        0 <= i < t.len() ==> lower(#[trigger] t[i]) == word[i]
}

/// A text without its sign, and whether the sign is a minus.
pub open spec fn unsigned_part(t: Text) -> (bool, Text) {
    if t.len() > 0 && t[0] == '-' {
        (true, t.drop_first())
    } else if t.len() > 0 && t[0] == '+' {
        (false, t.drop_first())
    } else {
        (false, t)
    }
}

/// The power of ten that an exponent gives: digits after an optional sign.
pub open spec fn exponent(t: Text) -> Option<int> {
    let (negative, digits) = unsigned_part(t);
    if digits.len() > 0 && all_digits(digits) {
        Some(
            if negative {
                -(value_of(digits, 10) as int)
            } else {
                value_of(digits, 10) as int
            },
        )
    } else {
        None
    }
}

/// The number that digits with an optional point, and a power of ten, denote.
pub open spec fn mantissa(negative: bool, t: Text, power_of_ten: int) -> Option<Float> {
    let (whole, fraction) = match split_once(t, '.') {
        Some(parts) => parts,
        None => (t, Seq::empty()),
    };
    if whole.len() + fraction.len() > 0 && all_digits(whole) && all_digits(fraction) {
        Some(of_decimal(negative, value_of(whole + fraction, 10), power_of_ten - fraction.len()))
    } else {
        None
    }
}

/// Where the exponent starts: the first `e` of either case, or the end.
pub open spec fn exponent_mark(t: Text) -> nat
    decreases t.len(),
{
    if t.len() == 0 || t[0] == 'e' || t[0] == 'E' {
        0
    } else {
        1 + exponent_mark(t.drop_first())
    }
}

/// The number that a literal denotes: `inf`, `infinity` or `nan` in any case, or digits
/// with an optional point and an optional exponent, all after an optional sign.
pub open spec fn literal(t: Text) -> Option<Float> {
    let (negative, rest) = unsigned_part(t);
    if spelled(rest, "inf"@) || spelled(rest, "infinity"@) {
        Some(Float::Infinite { negative })
    } else if spelled(rest, "nan"@) {
        Some(Float::NaN)
    } else {
        let k = exponent_mark(rest) as int;
        if k < rest.len() {
            match exponent(rest.skip(k + 1)) {
                Some(e) => mantissa(negative, rest.take(k), e),
                None => None,
            }
        } else {
            mantissa(negative, rest, 0)
        }
    }
}

/// A number in binary floating point of double precision.
pub enum Double {
    /// Not a number.
    NaN,
    /// An infinity.
    Infinite {
        /// Whether it is the negative one.
        negative: bool,
    },
    /// A finite number.
    Finite {
        /// Whether it is below zero.
        negative: bool,
        /// Its size.
        units: Natural,
    },
}

impl View for Double {
    type V = Float;

    open spec fn view(&self) -> Float {
        match self {
            Double::NaN => Float::NaN,
            Double::Infinite { negative } => Float::Infinite { negative: *negative },
            Double::Finite { negative, units } => Float::Finite {
                units: if *negative {
                    -(units@ as int)
                } else {
                    units@ as int
                },
            },
        }
    }
}

/// Rounds a quotient of units; see [`rounded`].
fn round(n: &Natural, d: &Natural) -> (r: Natural)
    requires
        d@ > 0,
    ensures
        r@ == rounded(n@, d@),
{
    let mut unit = Natural::from_u64(1);
    let mut step = d.copy();
    let mut top = d.shifted(53);
    proof {
        lemma_powers_of_two();
        assert(d@ * 1 == d@);
    }
    while !n.less(&top)
        invariant
            d@ > 0,
            unit@ > 0,
            step@ == d@ * unit@,
            top@ == step@ * 0x20_0000_0000_0000,
            spacing(n@, d@, 1) == spacing(n@, d@, unit@),
        decreases n@ + 1 - unit@,
    {
        proof {
            assert(n@ >= 2 * unit@) by (nonlinear_arith)
                requires
                    n@ >= d@ * unit@ * 0x20_0000_0000_0000,
                    d@ >= 1,
                    unit@ >= 1,
            ;
            assert(2 * (d@ * unit@) == d@ * (2 * unit@)) by (nonlinear_arith);
        }
        unit = unit.doubled();
        step = step.doubled();
        top = top.doubled();
    }
    proof {
        assert(step@ > 0) by (nonlinear_arith)
            requires
                step@ == d@ * unit@,
                d@ > 0,
                unit@ > 0,
        ;
    }
    let (quotient, rest) = n.divided_by(&step);
    proof {
        assert(quotient < 0x20_0000_0000_0000) by (nonlinear_arith)
            requires
                n@ == quotient * step@ + rest@,
                n@ < step@ * 0x20_0000_0000_0000,
                step@ > 0,
        ;
        vstd::arithmetic::div_mod::lemma_fundamental_div_mod_converse(
            n@ as int,
            step@ as int,
            quotient as int,
            rest@ as int,
        );
    }
    let twice = rest.doubled();
    let up = step.less(&twice) || (!twice.less(&step) && quotient % 2 == 1);
    let count: u64 = if up {
        quotient + 1
    } else {
        quotient
    };
    let r = unit.times_u64(count);
    assert(unit@ * count == count * unit@) by (nonlinear_arith);
    r
}

/// The number nearest to a quotient of units; see [`nearest`].
fn to_nearest(negative: bool, n: &Natural, d: &Natural) -> (r: Double)
    requires
        d@ > 0,
    ensures
        r@ == nearest(negative, n@, d@),
{
    let units = round(n, d);
    let top = Natural::from_u64(1).shifted(2098);
    assert(1 * power(2, 2098) == power(2, 2098));
    if units.less(&top) {
        Double::Finite { negative, units }
    } else {
        Double::Infinite { negative }
    }
}

/// The number nearest to a whole number of units, given its sign and size.
fn from_units(negative: bool, units: &Natural) -> (r: Double)
    ensures
        r@ == nearest_units(
            if negative {
                -(units@ as int)
            } else {
                units@ as int
            },
        ),
{
    let one = Natural::from_u64(1);
    let r = to_nearest(negative, units, &one);
    proof {
        if negative && units@ == 0 {
            lemma_rounded_zero();
            lemma_power_positive(2, 2098);
        }
    }
    r
}

/// Nothing rounds to nothing.
proof fn lemma_rounded_zero()
    ensures
        rounded(0, 1) == 0,
{
    assert(spacing(0, 1, 1) == 1);
    assert(half_even(0, 1) == 0);
}

impl Double {
    /// Zero.
    pub fn zero() -> (r: Self)
        ensures
            r@ == (Float::Finite { units: 0 }),
    {
        Double::Finite { negative: false, units: Natural::zero() }
    }

    /// A copy of the number.
    pub fn copy(&self) -> (r: Self)
        ensures
            r@ == self@,
    {
        match self {
            Double::NaN => Double::NaN,
            Double::Infinite { negative } => Double::Infinite { negative: *negative },
            Double::Finite { negative, units } => Double::Finite {
                negative: *negative,
                units: units.copy(),
            },
        }
    }

    /// The number nearest to a whole number, given its sign and size.
    pub fn from_integer(negative: bool, n: u128) -> (r: Self)
        ensures
            r@ == of_integer(
                if negative {
                    -(n as int)
                } else {
                    n as int
                },
            ),
    {
        let high = Natural::from_u64((n / 0x1_0000_0000_0000_0000) as u64);
        let low = Natural::from_u64((n % 0x1_0000_0000_0000_0000) as u64);
        let whole = high.shifted(64).plus(&low);
        proof {
            lemma_powers_of_two();
            assert(whole@ == n);
        }
        let units = whole.shifted(1074);
        let r = from_units(negative, &units);
        proof {
            let p = power(2, 1074) as int;
            assert((-(n as int)) * p == -(n as int * p)) by (nonlinear_arith);
        }
        r
    }

    /// The sum of two numbers.
    pub fn plus(&self, other: &Double) -> (r: Self)
        ensures
            r@ == sum(self@, other@),
    {
        match (self, other) {
            (Double::NaN, _) => Double::NaN,
            (_, Double::NaN) => Double::NaN,
            (Double::Infinite { negative: x }, Double::Infinite { negative: y }) => {
                if *x == *y {
                    Double::Infinite { negative: *x }
                } else {
                    Double::NaN
                }
            },
            (Double::Infinite { negative }, _) => Double::Infinite { negative: *negative },
            (_, Double::Infinite { negative }) => Double::Infinite { negative: *negative },
            (
                Double::Finite { negative: x, units: a },
                Double::Finite { negative: y, units: b },
            ) => {
                if *x == *y {
                    from_units(*x, &a.plus(b))
                } else if a.less(b) {
                    from_units(*y, &b.minus(a))
                } else {
                    from_units(*x, &a.minus(b))
                }
            },
        }
    }

    /// The product with a positive whole number.
    pub fn times(&self, factor: u32) -> (r: Self)
        ensures
            r@ == scaled(self@, factor as nat),
    {
        match self {
            Double::NaN => Double::NaN,
            Double::Infinite { negative } => Double::Infinite { negative: *negative },
            Double::Finite { negative, units } => {
                let r = from_units(*negative, &units.times_plus(factor, 0));
                proof {
                    let u = units@ as int;
                    let f = factor as int;
                    assert((-u) * f == -(u * f)) by (nonlinear_arith);
                }
                r
            },
        }
    }

    /// The number with the other sign.
    pub fn negate(&self) -> (r: Self)
        ensures
            r@ == negated(self@),
    {
        match self {
            Double::NaN => Double::NaN,
            Double::Infinite { negative } => Double::Infinite { negative: !*negative },
            Double::Finite { negative, units } => Double::Finite {
                negative: !*negative,
                units: units.copy(),
            },
        }
    }

    /// How two numbers compare.
    pub fn compare(&self, other: &Double) -> (r: Option<Order>)
        ensures
            r == compared(self@, other@),
    {
        match (self, other) {
            (Double::NaN, _) => None,
            (_, Double::NaN) => None,
            (Double::Infinite { negative: x }, Double::Infinite { negative: y }) => Some(
                if *x == *y {
                    Order::Equal
                } else if *x {
                    Order::Less
                } else {
                    Order::Greater
                },
            ),
            (Double::Infinite { negative }, _) => Some(
                if *negative {
                    Order::Less
                } else {
                    Order::Greater
                },
            ),
            (_, Double::Infinite { negative }) => Some(
                if *negative {
                    Order::Greater
                } else {
                    Order::Less
                },
            ),
            (
                Double::Finite { negative: x, units: a },
                Double::Finite { negative: y, units: b },
            ) => {
                let less = a.less(b);
                let greater = b.less(a);
                let zero = Natural::zero();
                let nothing = !zero.less(a) && !zero.less(b);
                Some(
                    if nothing || (*x == *y && !less && !greater) {
                        Order::Equal
                    } else if *x != *y {
                        if *x {
                            Order::Less
                        } else {
                            Order::Greater
                        }
                    } else if less != *x {
                        Order::Less
                    } else {
                        Order::Greater
                    },
                )
            },
        }
    }

    /// Whether two numbers are equal.
    pub fn equals(&self, other: &Double) -> (r: bool)
        ensures
            r == (compared(self@, other@) == Some(Order::Equal)),
    {
        match self.compare(other) {
            Some(Order::Equal) => true,
            _ => false,
        }
    }
}

// ---------------------------------------------------------------------
// Literals
// ---------------------------------------------------------------------

/// Powers of ten are at least as large as those of two with thrice the exponent.
proof fn lemma_ten_and_two(k: nat)
    ensures
        power(2, 3 * k) <= power(10, k),
    decreases k,
{
    if k > 0 {
        lemma_ten_and_two((k - 1) as nat);
        lemma_power_sum(2, 3, (3 * k - 3) as nat);
        reveal_with_fuel(power, 4);
        let p = power(2, (3 * k - 3) as nat);
        let q = power(10, (k - 1) as nat);
        assert(8 * p <= 10 * q) by (nonlinear_arith)
            requires
                p <= q,
        ;
    }
}

/// The spacing about a quotient is a power of two, and the quotient has less than two to
/// the fifty-third of it, but not less than half that unless the spacing is one unit.
proof fn lemma_spacing(n: nat, d: nat, k: nat)
    requires
        d > 0,
        k == 0 || d * power(2, k) * 0x10_0000_0000_0000 <= n,
    ensures
        exists|j: nat|
            k <= j && spacing(n, d, power(2, k)) == #[trigger] power(2, j) && n < d * power(2, j)
                * 0x20_0000_0000_0000 && (j == 0 || d * power(2, j) * 0x10_0000_0000_0000 <= n),
    decreases n + 1 - power(2, k),
{
    let unit = power(2, k);
    lemma_power_positive(2, k);
    if n < d * unit * 0x20_0000_0000_0000 {
        assert(spacing(n, d, unit) == power(2, k));
    } else {
        assert(power(2, k + 1) == 2 * unit);
        assert(n >= 2 * unit && d * (2 * unit) * 0x10_0000_0000_0000 <= n) by (nonlinear_arith)
            requires
                n >= d * unit * 0x20_0000_0000_0000,
                d >= 1,
                unit >= 1,
        ;
        lemma_spacing(n, d, k + 1);
    }
}

/// What reaches the limit is rounded to an infinity.
proof fn lemma_overflow(n: nat)
    requires
        n >= limit(),
    ensures
        rounded(n, 1) >= limit(),
{
    assert(power(2, 0) == 1);
    lemma_spacing(n, 1, 0);
    let j = choose|j: nat|
        spacing(n, 1, power(2, 0)) == #[trigger] power(2, j) && n < 1 * power(2, j)
            * 0x20_0000_0000_0000 && (j == 0 || 1 * power(2, j) * 0x10_0000_0000_0000 <= n);
    let unit = power(2, j);
    lemma_power_positive(2, j);
    lemma_powers_of_two();
    if j < 2046 {
        lemma_power_sum(2, j, 53);
        lemma_power_grows(2, j + 53, 2098);
        assert(false);
    }
    lemma_power_sum(2, j, 52);
    lemma_power_grows(2, 2098, j + 52);
    let q = n / unit;
    vstd::arithmetic::div_mod::lemma_fundamental_div_mod(n as int, unit as int);
    assert(q >= 0x10_0000_0000_0000) by (nonlinear_arith)
        requires
            n == unit * q + n % unit,
            n % unit < unit,
            unit * 0x10_0000_0000_0000 <= n,
            unit >= 1,
    ;
    assert(1 * unit == unit);
    let h = half_even(n, unit);
    assert(h >= q);
    assert(h * unit >= unit * 0x10_0000_0000_0000) by (nonlinear_arith)
        requires
            h >= 0x10_0000_0000_0000,
    ;
}

/// What is less than half a unit is rounded to zero.
proof fn lemma_underflow(n: nat, d: nat)
    requires
        2 * n < d,
    ensures
        rounded(n, d) == 0,
{
    assert(n < d * 1 * 0x20_0000_0000_0000);
    assert(spacing(n, d, 1) == 1);
    assert(d * 1 == d);
    vstd::arithmetic::div_mod::lemma_fundamental_div_mod_converse(n as int, d as int, 0, n as int);
    assert(half_even(n, d) == 0);
}

/// A large exponent makes an infinity of anything but zero.
proof fn lemma_large(negative: bool, m: nat, e: int)
    requires
        m >= 1,
        e >= 400,
    ensures
        of_decimal(negative, m, e) == (Float::Infinite { negative }),
{
    let ten = power(10, e as nat);
    let two = power(2, 1074);
    lemma_ten_and_two(400);
    lemma_power_grows(10, 400, e as nat);
    lemma_power_sum(2, 1200, 1074);
    lemma_power_grows(2, 2098, 2274);
    let big = power(2, 1200);
    assert(m * ten * two >= big * two) by (nonlinear_arith)
        requires
            m >= 1,
            ten >= big,
    ;
    lemma_overflow(m * ten * two);
}

/// A small exponent makes a zero of any number.
proof fn lemma_small(negative: bool, m: nat, e: int, len: nat)
    requires
        m < power(10, len),
        e <= -400 - len,
    ensures
        of_decimal(negative, m, e) == (Float::Finite { units: 0 }),
{
    let two = power(2, 1074);
    let d = power(10, (-e) as nat);
    lemma_ten_and_two(400);
    lemma_power_grows(2, 1075, 1200);
    lemma_power_sum(10, len, 400);
    lemma_power_grows(10, len + 400, (-e) as nat);
    lemma_power_positive(2, 1074);
    lemma_power_positive(2, 2098);
    let ten = power(10, len);
    let most = power(10, 400);
    assert(power(2, 1075) == 2 * two);
    assert(2 * (m * two) < ten * most) by (nonlinear_arith)
        requires
            m < ten,
            2 * two <= most,
            two >= 1,
    ;
    lemma_underflow(m * two, d);
}

/// Zero is zero, whatever its exponent.
proof fn lemma_nothing(negative: bool, e: int)
    ensures
        of_decimal(negative, 0, e) == (Float::Finite { units: 0 }),
{
    lemma_power_positive(2, 2098);
    lemma_power_positive(10, (-e) as nat);
    lemma_underflow(0, 1);
    assert(0 * power(10, e as nat) * power(2, 1074) == 0) by (nonlinear_arith);
    assert(0 * power(2, 1074) == 0);
    if e < 0 {
        lemma_underflow(0, power(10, (-e) as nat));
    }
}

/// What digits denote is less than the power of ten with their number.
pub proof fn lemma_value_bound(t: Text)
    requires
        all_digits(t),
    ensures
        value_of(t, 10) < power(10, t.len()),
    decreases t.len(),
{
    if t.len() > 0 {
        assert forall|i: int| 0 <= i < t.drop_last().len() implies digit(
            #[trigger] t.drop_last()[i],
        ) by {
            assert(t.drop_last()[i] == t[i]);
        }
        lemma_value_bound(t.drop_last());
        assert(digit(t[t.len() - 1]));
    }
}

/// The number that digits denote.
pub fn digits_natural(v: &[char]) -> (r: Natural)
    requires
        all_digits(v@),
    ensures
        r@ == value_of(v@, 10),
{
    let mut out = Natural::zero();
    let mut i: usize = 0;
    while i < v.len()
        invariant
            i <= v.len(),
            all_digits(v@),
            out@ == value_of(v@.take(i as int), 10),
        decreases v.len() - i,
    {
        let c = v[i];
        assert(digit(v@[i as int]));
        assert(v@.take(i + 1).drop_last() =~= v@.take(i as int));
        out = out.times_plus(10, c as u32 - '0' as u32);
        i += 1;
    }
    assert(v@.take(i as int) =~= v@);
    out
}

/// The number that digits denote, or a bound where it is larger.
fn digits_up_to(v: &[char], cap: u128) -> (r: u128)
    requires
        all_digits(v@),
        cap <= 0x10_0000_0000_0000_0000_0000_0000,
    ensures
        r == if value_of(v@, 10) < cap {
            value_of(v@, 10)
        } else {
            cap as nat
        },
{
    let mut value: u128 = 0;
    let mut i: usize = 0;
    while i < v.len()
        invariant
            i <= v.len(),
            all_digits(v@),
            cap <= 0x10_0000_0000_0000_0000_0000_0000,
            value < cap || i == 0,
            value == value_of(v@.take(i as int), 10),
        decreases v.len() - i,
    {
        let c = v[i];
        assert(digit(v@[i as int]));
        assert(v@.take(i + 1).drop_last() =~= v@.take(i as int));
        let next: u128 = value * 10 + (c as u128 - '0' as u128);
        if next >= cap {
            proof {
                lemma_value_grows(v@, i + 1, 10);
            }
            return cap;
        }
        value = next;
        i += 1;
    }
    assert(v@.take(i as int) =~= v@);
    if value < cap {
        value
    } else {
        cap
    }
}

/// The number nearest to digits times a power of ten; see [`of_decimal`].
fn from_decimal(negative: bool, digits: &[char], e: i128) -> (r: Double)
    requires
        all_digits(digits@),
        -0x20_0000_0000_0000_0000_0000_0000 <= e <= 0x20_0000_0000_0000_0000_0000_0000,
    ensures
        r@ == of_decimal(negative, value_of(digits@, 10), e as int),
{
    let m = digits_natural(digits);
    let len: i128 = digits.len() as i128;
    proof {
        lemma_value_bound(digits@);
    }
    if !Natural::zero().less(&m) {
        proof {
            lemma_nothing(negative, e as int);
        }
        return Double::zero();
    }
    if e >= 400 {
        proof {
            lemma_large(negative, m@, e as int);
        }
        return Double::Infinite { negative };
    }
    if e <= -400 - len {
        proof {
            lemma_small(negative, m@, e as int, digits@.len());
        }
        return Double::zero();
    }
    let one = Natural::from_u64(1);
    if e >= 0 {
        let n = m.times_ten_to(e as u128).shifted(1074);
        to_nearest(negative, &n, &one)
    } else {
        let n = m.shifted(1074);
        let d = one.times_ten_to((-e) as u128);
        proof {
            lemma_power_positive(10, (-e) as nat);
            assert(1 * power(10, (-e) as nat) == power(10, (-e) as nat));
        }
        to_nearest(negative, &n, &d)
    }
}

/// The text without its sign, and whether the sign is a minus.
fn strip_sign<'a>(v: &'a [char]) -> (r: (bool, &'a [char]))
    ensures
        (r.0, r.1@) == unsigned_part(v@),
{
    if v.len() > 0 && (v[0] == '-' || v[0] == '+') {
        let rest = slice_subrange(v, 1, v.len());
        assert(rest@ =~= v@.drop_first());
        (v[0] == '-', rest)
    } else {
        (false, v)
    }
}

/// Whether a text spells a word, in whatever case.
fn is_spelled(v: &[char], word: &[char]) -> (r: bool)
    ensures
        r == spelled(v@, word@),
{
    if v.len() != word.len() {
        return false;
    }
    let mut i: usize = 0;
    while i < v.len()
        invariant
            i <= v.len(),
            v.len() == word.len(),
            forall|j: int| 0 <= j < i ==> lower(#[trigger] v@[j]) == word@[j],
        decreases v.len() - i,
    {
        let c = v[i];
        let small = if 'A' <= c && c <= 'Z' {
            (c as u8 + 32) as char
        } else {
            c
        };
        assert(small == lower(c));
        if small != word[i] {
            assert(lower(v@[i as int]) != word@[i as int]);
            return false;
        }
        i += 1;
    }
    true
}

/// The number that digits with an optional point, and a power of ten, denote; see
/// [`mantissa`]. The power is given by its sign and its digits.
fn parse_mantissa(negative: bool, v: &[char], down: bool, power_digits: &[char]) -> (r: Option<
    Double,
>)
    requires
        all_digits(power_digits@),
    ensures
        ({
            let size = value_of(power_digits@, 10) as int;
            let e = if down {
                -size
            } else {
                size
            };
            match r {
                Some(number) => mantissa(negative, v@, e) == Some(number@),
                None => mantissa(negative, v@, e) is None,
            }
        }),
{
    let empty: Vec<char> = Vec::new();
    let (whole, fraction) = match split_at_first(v, '.') {
        Some((a, b)) => (a, b),
        None => {
            assert(empty@ =~= Seq::<char>::empty());
            (v, empty.as_slice())
        },
    };
    if whole.len() == 0 && fraction.len() == 0 {
        return None;
    }
    if !is_ascii_digits(whole) || !is_ascii_digits(fraction) {
        return None;
    }
    let mut digits = copy_chars(whole);
    push_all(&mut digits, fraction);
    assert(all_digits(digits@));
    let cap: u128 = 0x10_0000_0000_0000_0000_0000_0000;
    let size: u128 = digits_up_to(power_digits, cap);
    let places: i128 = fraction.len() as i128;
    let e: i128 = if down {
        -(size as i128) - places
    } else {
        size as i128 - places
    };
    proof {
        let m = value_of(digits@, 10);
        let full = value_of(power_digits@, 10) as int;
        let t = if down {
            -full - places
        } else {
            full - places
        };
        if full >= cap {
            if m == 0 {
                lemma_nothing(negative, t);
                lemma_nothing(negative, e as int);
            } else if down {
                lemma_value_bound(digits@);
                lemma_small(negative, m, t, digits@.len());
                lemma_small(negative, m, e as int, digits@.len());
            } else {
                lemma_large(negative, m, t);
                lemma_large(negative, m, e as int);
            }
        }
    }
    Some(from_decimal(negative, digits.as_slice(), e))
}

/// The exponent starts at the first `e` of either case.
proof fn lemma_exponent_mark(t: Text, k: nat)
    requires
        k <= t.len(),
        forall|j: int| 0 <= j < k ==> #[trigger] t[j] != 'e' && t[j] != 'E',
        k < t.len() ==> t[k as int] == 'e' || t[k as int] == 'E',
    ensures
        exponent_mark(t) == k,
    decreases k,
{
    if k > 0 {
        let rest = t.drop_first();
        assert forall|j: int| 0 <= j < k - 1 implies #[trigger] rest[j] != 'e' && rest[j]
            != 'E' by {
            assert(rest[j] == t[j + 1]);
        }
        assert(t[0] != 'e' && t[0] != 'E');
        lemma_exponent_mark(rest, (k - 1) as nat);
    }
}

/// The number that a literal denotes; see [`literal`].
pub fn parse_literal(v: &[char]) -> (r: Option<Double>)
    ensures
        match r {
            Some(number) => literal(v@) == Some(number@),
            None => literal(v@) is None,
        },
{
    let (negative, rest) = strip_sign(v);
    let inf = to_chars("inf");
    let infinity = to_chars("infinity");
    let nan = to_chars("nan");
    if is_spelled(rest, inf.as_slice()) || is_spelled(rest, infinity.as_slice()) {
        return Some(Double::Infinite { negative });
    }
    if is_spelled(rest, nan.as_slice()) {
        return Some(Double::NaN);
    }
    let mut k: usize = 0;
    while k < rest.len() && rest[k] != 'e' && rest[k] != 'E'
        invariant
            k <= rest.len(),
            forall|j: int| 0 <= j < k ==> #[trigger] rest@[j] != 'e' && rest@[j] != 'E',
        decreases rest.len() - k,
    {
        k += 1;
    }
    proof {
        lemma_exponent_mark(rest@, k as nat);
    }
    if k < rest.len() {
        let before = slice_subrange(rest, 0, k);
        let after = slice_subrange(rest, k + 1, rest.len());
        assert(before@ =~= rest@.take(k as int));
        assert(after@ =~= rest@.skip(k + 1));
        let (down, power_digits) = strip_sign(after);
        if power_digits.len() == 0 || !is_ascii_digits(power_digits) {
            return None;
        }
        parse_mantissa(negative, before, down, power_digits)
    } else {
        let none: Vec<char> = Vec::new();
        parse_mantissa(negative, rest, false, none.as_slice())
    }
}

} // verus!
