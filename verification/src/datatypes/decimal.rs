//! Decimal numbers, as digits of unbounded precision.
use vstd::prelude::*;
use vstd::slice::slice_subrange;

use super::binary64::{lemma_value_bound, unsigned_part, Order};
use super::natural::{lemma_power_grows, lemma_power_positive, lemma_power_sum, power};
use crate::numbers::{lemma_value_grows, value_of};
use crate::text::{all_digits, copy_chars, digit, is_ascii_digits, split_at_first, split_once, Text};

verus! {

/// A decimal number: the digits before the point without leading zeros, and those after
/// it without trailing zeros. Zero has no sign.
#[verifier::ext_equal]
pub struct DecimalModel {
    pub negative: bool,
    pub whole: Text,
    pub fraction: Text,
}

/// Digits without leading zeros.
pub open spec fn without_leading_zeros(t: Text) -> Text
    decreases t.len(),
{
    if t.len() > 0 && t[0] == '0' {
        without_leading_zeros(t.drop_first())
    } else {
        t
    }
}

/// Digits without trailing zeros.
pub open spec fn without_trailing_zeros(t: Text) -> Text
    decreases t.len(),
{
    if t.len() > 0 && t.last() == '0' {
        without_trailing_zeros(t.drop_last())
    } else {
        t
    }
}

/// The decimal number that a text denotes: digits with an optional point somewhere, after
/// an optional sign.
pub open spec fn decimal_of(t: Text) -> Option<DecimalModel> {
    let (negative, rest) = unsigned_part(t);
    let (whole, fraction) = match split_once(rest, '.') {
        Some(parts) => parts,
        None => (rest, Seq::empty()),
    };
    if whole.len() + fraction.len() > 0 && all_digits(whole) && all_digits(fraction) {
        let whole = without_leading_zeros(whole);
        let fraction = without_trailing_zeros(fraction);
        Some(
            DecimalModel {
                negative: negative && whole.len() + fraction.len() > 0,
                whole,
                fraction,
            },
        )
    } else {
        None
    }
}

/// The whole number that a decimal number is of the given decimal place, which is at or
/// past its last.
pub open spec fn scaled_to(d: DecimalModel, places: nat) -> int {
    let size = value_of(d.whole + d.fraction, 10) * power(
        10,
        (places - d.fraction.len()) as nat,
    );
    if d.negative {
        -(size as int)
    } else {
        size as int
    }
}

/// How two decimal numbers compare.
pub open spec fn decimal_order(a: DecimalModel, b: DecimalModel) -> Order {
    let places = if a.fraction.len() > b.fraction.len() {
        a.fraction.len()
    } else {
        b.fraction.len()
    };
    let x = scaled_to(a, places);
    let y = scaled_to(b, places);
    if x < y {
        Order::Less
    } else if x == y {
        Order::Equal
    } else {
        Order::Greater
    }
}

/// The whole number that a decimal number without a fraction is.
pub open spec fn whole_value(d: DecimalModel) -> int {
    if d.negative {
        -(value_of(d.whole, 10) as int)
    } else {
        value_of(d.whole, 10) as int
    }
}

/// A decimal number, as digits of unbounded precision.
pub struct Decimal {
    negative: bool,
    whole: Vec<char>,
    fraction: Vec<char>,
}

impl View for Decimal {
    type V = DecimalModel;

    closed spec fn view(&self) -> DecimalModel {
        DecimalModel { negative: self.negative, whole: self.whole@, fraction: self.fraction@ }
    }
}

/// The digits of a number up to a decimal place, with zeros where it has none.
spec fn padded(d: DecimalModel, places: nat) -> Text {
    Seq::new(
        d.whole.len() + places,
        |i: int|
            if i < d.whole.len() {
                d.whole[i]
            } else if i - d.whole.len() < d.fraction.len() {
                d.fraction[i - d.whole.len()]
            } else {
                '0'
            },
    )
}

/// What the padded digits denote.
proof fn lemma_padded(d: DecimalModel, places: nat)
    requires
        places >= d.fraction.len(),
    ensures
        value_of(padded(d, places), 10) == value_of(d.whole + d.fraction, 10) * power(
            10,
            (places - d.fraction.len()) as nat,
        ),
    decreases places - d.fraction.len(),
{
    let t = padded(d, places);
    let m = value_of(d.whole + d.fraction, 10);
    if places == d.fraction.len() {
        assert(t =~= d.whole + d.fraction);
        assert(power(10, 0) == 1);
        assert(m * 1 == m);
    } else {
        lemma_padded(d, (places - 1) as nat);
        assert(t.drop_last() =~= padded(d, (places - 1) as nat));
        assert(t.last() == '0');
        let p = power(10, (places - 1 - d.fraction.len()) as nat);
        assert((m * p) * 10 == m * (10 * p)) by (nonlinear_arith);
    }
}

/// The padded digits are digits.
proof fn lemma_padded_digits(d: DecimalModel, places: nat)
    requires
        all_digits(d.whole),
        all_digits(d.fraction),
    ensures
        all_digits(padded(d, places)),
{
    let t = padded(d, places);
    assert forall|i: int| 0 <= i < t.len() implies digit(#[trigger] t[i]) by {
        if i < d.whole.len() {
            assert(digit(d.whole[i]));
        } else if i - d.whole.len() < d.fraction.len() {
            assert(digit(d.fraction[i - d.whole.len()]));
        }
    }
}

/// A number below zero stays so in whatever place it is counted.
proof fn lemma_scaled_sign(d: DecimalModel, places: nat)
    requires
        d.negative ==> value_of(d.whole + d.fraction, 10) > 0,
    ensures
        d.negative <==> scaled_to(d, places) < 0,
{
    let m = value_of(d.whole + d.fraction, 10);
    let p = power(10, (places - d.fraction.len()) as nat);
    lemma_power_positive(10, (places - d.fraction.len()) as nat);
    if d.negative {
        assert(m * p > 0) by (nonlinear_arith)
            requires
                m > 0,
                p >= 1,
        ;
    }
}

/// Digits that do not start with a zero denote at least the power of ten with one less
/// than their number.
proof fn lemma_value_at_least(t: Text)
    requires
        t.len() > 0,
        all_digits(t),
        t[0] != '0',
    ensures
        value_of(t, 10) >= power(10, (t.len() - 1) as nat),
    decreases t.len(),
{
    assert(digit(t[0]));
    assert(digit(t[t.len() - 1]));
    if t.len() == 1 {
        reveal_with_fuel(value_of, 2);
        assert(power(10, 0) == 1);
        assert(t.last() == t[0]);
    } else {
        let head = t.drop_last();
        assert forall|i: int| 0 <= i < head.len() implies digit(#[trigger] head[i]) by {
            assert(head[i] == t[i]);
        }
        lemma_value_at_least(head);
    }
}

/// Of digits of one length, the first difference decides.
proof fn lemma_first_difference(a: Text, b: Text, i: int, k: int)
    requires
        a.len() == b.len(),
        all_digits(a),
        all_digits(b),
        0 <= i < k <= a.len(),
        a.take(i) == b.take(i),
        (a[i] as int) < (b[i] as int),
    ensures
        value_of(a.take(k), 10) < value_of(b.take(k), 10),
    decreases k,
{
    assert(a.take(k).drop_last() =~= a.take(k - 1));
    assert(b.take(k).drop_last() =~= b.take(k - 1));
    assert(digit(a[k - 1]) && digit(b[k - 1]));
    assert(a.take(k).last() == a[k - 1]);
    assert(b.take(k).last() == b[k - 1]);
    if k - 1 > i {
        lemma_first_difference(a, b, i, k - 1);
    }
}

impl Decimal {
    /// The fields hold digits, without superfluous zeros, and fit in a text together.
    #[verifier::type_invariant]
    spec fn well_formed(&self) -> bool {
        &&& all_digits(self.whole@)
        &&& all_digits(self.fraction@)
        &&& self.whole@.len() > 0 ==> self.whole@[0] != '0'
        &&& self.whole@.len() + self.fraction@.len() <= usize::MAX
        &&& self.negative ==> value_of(self.whole@ + self.fraction@, 10) > 0
    }

    /// The decimal number that a text denotes; see [`decimal_of`].
    pub fn parse(v: &[char]) -> (r: Option<Decimal>)
        ensures
            match r {
                Some(number) => decimal_of(v@) == Some(number@),
                None => decimal_of(v@) is None,
            },
    {
        let (negative, rest) = if v.len() > 0 && (v[0] == '-' || v[0] == '+') {
            let rest = slice_subrange(v, 1, v.len());
            assert(rest@ =~= v@.drop_first());
            (v[0] == '-', rest)
        } else {
            (false, v)
        };
        let none: Vec<char> = Vec::new();
        let (whole, fraction) = match split_at_first(rest, '.') {
            Some((a, b)) => (a, b),
            None => {
                assert(none@ =~= Seq::<char>::empty());
                (rest, none.as_slice())
            },
        };
        if whole.len() == 0 && fraction.len() == 0 {
            return None;
        }
        if !is_ascii_digits(whole) || !is_ascii_digits(fraction) {
            return None;
        }
        let whole = strip_leading_zeros(whole);
        let fraction = strip_trailing_zeros(fraction);
        let negative = negative && (whole.len() > 0 || fraction.len() > 0);
        proof {
            let all = whole@ + fraction@;
            assert(all_digits(all));
            if whole@.len() > 0 {
                lemma_value_at_least(all);
                lemma_power_positive(10, (all.len() - 1) as nat);
            } else if fraction@.len() > 0 {
                assert(all.last() == fraction@.last());
                assert(digit(fraction@[fraction@.len() - 1]));
            }
        }
        Some(Decimal { negative, whole: copy_chars(whole), fraction: copy_chars(fraction) })
    }

    /// How the sizes of two numbers compare, regardless of their signs.
    fn compare_sizes(&self, other: &Decimal) -> (r: Order)
        ensures
            r == decimal_order(
                (DecimalModel { negative: false, ..self@ }),
                (DecimalModel { negative: false, ..other@ }),
            ),
    {
        proof {
            use_type_invariant(self);
            use_type_invariant(other);
        }
        let places = if self.fraction.len() > other.fraction.len() {
            self.fraction.len()
        } else {
            other.fraction.len()
        };
        let ghost a = padded(self@, places as nat);
        let ghost b = padded(other@, places as nat);
        proof {
            lemma_padded(self@, places as nat);
            lemma_padded(other@, places as nat);
            lemma_padded_digits(self@, places as nat);
            lemma_padded_digits(other@, places as nat);
            lemma_value_bound(a);
            lemma_value_bound(b);
            assert(a.take(a.len() as int) =~= a);
            assert(b.take(b.len() as int) =~= b);
        }
        if self.whole.len() < other.whole.len() {
            proof {
                lemma_value_at_least(b);
                lemma_power_grows(10, a.len(), (b.len() - 1) as nat);
            }
            return Order::Less;
        }
        if other.whole.len() < self.whole.len() {
            proof {
                lemma_value_at_least(a);
                lemma_power_grows(10, b.len(), (a.len() - 1) as nat);
            }
            return Order::Greater;
        }
        let mut i: usize = 0;
        while i < self.whole.len()
            invariant
                i <= self.whole.len(),
                self@.whole == self.whole@,
                a == padded(self@, places as nat),
                b == padded(other@, places as nat),
                a.len() == b.len(),
                all_digits(a),
                all_digits(b),
                a.take(a.len() as int) == a,
                b.take(b.len() as int) == b,
                forall|j: int| 0 <= j < i ==> #[trigger] a[j] == b[j],
                self.whole.len() == other.whole.len(),
                other@.whole == other.whole@,
                places == if self.fraction@.len() > other.fraction@.len() {
                    self.fraction@.len()
                } else {
                    other.fraction@.len()
                },
                self@.fraction == self.fraction@,
                other@.fraction == other.fraction@,
                value_of(a, 10) == value_of(self@.whole + self@.fraction, 10) * power(
                    10,
                    (places - self@.fraction.len()) as nat,
                ),
                value_of(b, 10) == value_of(other@.whole + other@.fraction, 10) * power(
                    10,
                    (places - other@.fraction.len()) as nat,
                ),
            decreases self.whole.len() - i,
        {
            let x = self.whole[i];
            let y = other.whole[i];
            assert(x == a[i as int] && y == b[i as int]);
            if x != y {
                assert(a.take(i as int) =~= b.take(i as int));
                assert(b.take(i as int) =~= a.take(i as int));
                if x < y {
                    proof {
                        lemma_first_difference(a, b, i as int, a.len() as int);
                    }
                    return Order::Less;
                }
                proof {
                    lemma_first_difference(b, a, i as int, a.len() as int);
                }
                return Order::Greater;
            }
            i += 1;
        }
        let mut k: usize = 0;
        while k < places
            invariant
                k <= places,
                a == padded(self@, places as nat),
                b == padded(other@, places as nat),
                a.len() == b.len(),
                a.len() == self.whole@.len() + places,
                all_digits(a),
                all_digits(b),
                a.take(a.len() as int) == a,
                b.take(b.len() as int) == b,
                forall|j: int| 0 <= j < self.whole@.len() + k ==> #[trigger] a[j] == b[j],
                self.whole@.len() == other.whole@.len(),
                places == if self.fraction@.len() > other.fraction@.len() {
                    self.fraction@.len()
                } else {
                    other.fraction@.len()
                },
                self@.whole == self.whole@,
                other@.whole == other.whole@,
                self@.fraction == self.fraction@,
                other@.fraction == other.fraction@,
                value_of(a, 10) == value_of(self@.whole + self@.fraction, 10) * power(
                    10,
                    (places - self@.fraction.len()) as nat,
                ),
                value_of(b, 10) == value_of(other@.whole + other@.fraction, 10) * power(
                    10,
                    (places - other@.fraction.len()) as nat,
                ),
            decreases places - k,
        {
            let x = fraction_digit(&self.fraction, k);
            let y = fraction_digit(&other.fraction, k);
            let ghost at = self.whole@.len() + k;
            assert(x == a[at] && y == b[at]);
            if x != y {
                assert(a.take(at) =~= b.take(at));
                assert(b.take(at) =~= a.take(at));
                if x < y {
                    proof {
                        lemma_first_difference(a, b, at, a.len() as int);
                    }
                    return Order::Less;
                }
                proof {
                    lemma_first_difference(b, a, at, a.len() as int);
                }
                return Order::Greater;
            }
            k += 1;
        }
        assert(a =~= b);
        Order::Equal
    }

    /// How two decimal numbers compare.
    pub fn compare(&self, other: &Decimal) -> (r: Order)
        ensures
            r == decimal_order(self@, other@),
    {
        proof {
            use_type_invariant(self);
            use_type_invariant(other);
            let places = if self@.fraction.len() > other@.fraction.len() {
                self@.fraction.len()
            } else {
                other@.fraction.len()
            };
            lemma_scaled_sign(self@, places);
            lemma_scaled_sign(other@, places);
        }
        if self.negative != other.negative {
            return if self.negative {
                Order::Less
            } else {
                Order::Greater
            };
        }
        let sizes = self.compare_sizes(other);
        if self.negative {
            match sizes {
                Order::Less => Order::Greater,
                Order::Equal => Order::Equal,
                Order::Greater => Order::Less,
            }
        } else {
            sizes
        }
    }

    /// The number of digits, but for superfluous zeros.
    pub fn total_digits(&self) -> (r: usize)
        ensures
            r == self@.whole.len() + self@.fraction.len(),
    {
        proof {
            use_type_invariant(self);
        }
        self.whole.len() + self.fraction.len()
    }

    /// The number of digits after the point, but for superfluous zeros.
    pub fn fraction_digit_count(&self) -> (r: usize)
        ensures
            r == self@.fraction.len(),
    {
        self.fraction.len()
    }

    /// Whether this is below zero.
    pub fn is_negative(&self) -> (r: bool)
        ensures
            r == self@.negative,
    {
        self.negative
    }

    /// The whole number that this is, where it is one and fits.
    pub fn to_i128(&self) -> (r: Option<i128>)
        ensures
            match r {
                Some(n) => self@.fraction.len() == 0 && n == whole_value(self@),
                None => self@.fraction.len() > 0 || (if self@.negative {
                    whole_value(self@) < i128::MIN
                } else {
                    whole_value(self@) > i128::MAX
                }),
            },
    {
        proof {
            use_type_invariant(self);
        }
        if self.fraction.len() > 0 {
            return None;
        }
        let most: u128 = 0x8000_0000_0000_0000_0000_0000_0000_0000;
        let mut value: u128 = 0;
        let mut i: usize = 0;
        while i < self.whole.len()
            invariant
                i <= self.whole.len(),
                all_digits(self.whole@),
                most == 0x8000_0000_0000_0000_0000_0000_0000_0000,
                value <= most,
                value == value_of(self.whole@.take(i as int), 10),
            decreases self.whole.len() - i,
        {
            let c = self.whole[i];
            assert(digit(self.whole@[i as int]));
            assert(self.whole@.take(i + 1).drop_last() =~= self.whole@.take(i as int));
            let d: u128 = c as u128 - '0' as u128;
            if value > most / 10 || value * 10 > most - d {
                proof {
                    lemma_value_grows(self.whole@, i + 1, 10);
                }
                return None;
            }
            value = value * 10 + d;
            i += 1;
        }
        assert(self.whole@.take(i as int) =~= self.whole@);
        if self.negative {
            if value == most {
                Some(i128::MIN)
            } else {
                Some(-(value as i128))
            }
        } else if value == most {
            None
        } else {
            Some(value as i128)
        }
    }
}

/// The digit at an index into the digits after the point, or a zero.
fn fraction_digit(v: &Vec<char>, k: usize) -> (r: char)
    ensures
        r == if k < v@.len() {
            v@[k as int]
        } else {
            '0'
        },
{
    if k < v.len() {
        v[k]
    } else {
        '0'
    }
}

/// Digits without leading zeros.
fn strip_leading_zeros<'a>(v: &'a [char]) -> (r: &'a [char])
    requires
        all_digits(v@),
    ensures
        r@ == without_leading_zeros(v@),
        all_digits(r@),
        r@.len() > 0 ==> r@[0] != '0',
        r@.len() <= v@.len(),
{
    let mut i: usize = 0;
    assert(v@.skip(0) =~= v@);
    while i < v.len() && v[i] == '0'
        invariant
            i <= v.len(),
            without_leading_zeros(v@) == without_leading_zeros(v@.skip(i as int)),
        decreases v.len() - i,
    {
        assert(v@.skip(i as int).drop_first() =~= v@.skip(i + 1));
        i += 1;
    }
    let r = slice_subrange(v, i, v.len());
    assert(r@ =~= v@.skip(i as int));
    assert forall|j: int| 0 <= j < r@.len() implies digit(#[trigger] r@[j]) by {
        assert(digit(v@[i + j]));
    }
    r
}

/// Digits without trailing zeros.
fn strip_trailing_zeros<'a>(v: &'a [char]) -> (r: &'a [char])
    requires
        all_digits(v@),
    ensures
        r@ == without_trailing_zeros(v@),
        all_digits(r@),
        r@.len() > 0 ==> r@.last() != '0',
        r@.len() <= v@.len(),
{
    let mut n: usize = v.len();
    assert(v@.take(n as int) =~= v@);
    while n > 0 && v[n - 1] == '0'
        invariant
            n <= v.len(),
            without_trailing_zeros(v@) == without_trailing_zeros(v@.take(n as int)),
        decreases n,
    {
        assert(v@.take(n as int).drop_last() =~= v@.take(n - 1));
        assert(v@.take(n as int).last() == v@[n - 1]);
        n -= 1;
    }
    assert(n > 0 ==> v@.take(n as int).last() == v@[n - 1]);
    let r = slice_subrange(v, 0, n);
    assert(r@ =~= v@.take(n as int));
    assert forall|j: int| 0 <= j < r@.len() implies digit(#[trigger] r@[j]) by {
        assert(digit(v@[j]));
    }
    r
}

/// A number counted in a later decimal place is as many times larger.
pub proof fn lemma_scaled_more(d: DecimalModel, places: nat, more: nat)
    requires
        d.fraction.len() <= places <= more,
    ensures
        scaled_to(d, more) == scaled_to(d, places) * power(10, (more - places) as nat),
{
    let size = value_of(d.whole + d.fraction, 10);
    let e = (places - d.fraction.len()) as nat;
    let f = (more - places) as nat;
    lemma_power_sum(10, e, f);
    assert((more - d.fraction.len()) as nat == e + f);
    let p = power(10, e);
    let q = power(10, f);
    assert(size * (p * q) == (size * p) * q) by (nonlinear_arith);
    assert((-((size * p) as int)) * q == -((size * p) * q)) by (nonlinear_arith);
}

/// Numbers are equal just where they are so in any decimal place past both.
pub proof fn lemma_equal_at(a: DecimalModel, b: DecimalModel, places: nat)
    requires
        a.fraction.len() <= places,
        b.fraction.len() <= places,
    ensures
        decimal_order(a, b) == Order::Equal <==> scaled_to(a, places) == scaled_to(b, places),
{
    let least = if a.fraction.len() > b.fraction.len() {
        a.fraction.len()
    } else {
        b.fraction.len()
    };
    lemma_scaled_more(a, least, places);
    lemma_scaled_more(b, least, places);
    lemma_power_positive(10, (places - least) as nat);
    let x = scaled_to(a, least);
    let y = scaled_to(b, least);
    let q = power(10, (places - least) as nat);
    if x != y {
        assert(x * q != y * q) by (nonlinear_arith)
            requires
                x != y,
                q >= 1,
        ;
    }
}

} // verus!
