//! Natural numbers of any size.
use vstd::prelude::*;

verus! {

/// A power.
pub open spec fn power(base: nat, e: nat) -> nat
    decreases e,
{
    if e == 0 {
        1
    } else {
        base * power(base, (e - 1) as nat)
    }
}

/// A power of what is not zero is not zero.
pub proof fn lemma_power_positive(base: nat, e: nat)
    requires
        base >= 1,
    ensures
        power(base, e) >= 1,
    decreases e,
{
    if e > 0 {
        lemma_power_positive(base, (e - 1) as nat);
        let p = power(base, (e - 1) as nat);
        assert(base * p >= 1) by (nonlinear_arith)
            requires
                base >= 1,
                p >= 1,
        ;
    }
}

/// A power of a sum is the product of the powers.
pub proof fn lemma_power_sum(base: nat, e: nat, f: nat)
    ensures
        power(base, e + f) == power(base, e) * power(base, f),
    decreases e,
{
    if e == 0 {
        assert(1 * power(base, f) == power(base, f));
    } else {
        lemma_power_sum(base, (e - 1) as nat, f);
        let p = power(base, (e - 1) as nat);
        let q = power(base, f);
        assert((base * p) * q == base * (p * q)) by (nonlinear_arith);
        assert((e + f - 1) as nat == (e - 1) as nat + f);
    }
}

/// A higher power is no smaller.
pub proof fn lemma_power_grows(base: nat, e: nat, f: nat)
    requires
        base >= 1,
        e <= f,
    ensures
        power(base, e) <= power(base, f),
{
    lemma_power_sum(base, e, (f - e) as nat);
    lemma_power_positive(base, (f - e) as nat);
    let p = power(base, e);
    let q = power(base, (f - e) as nat);
    assert(p <= p * q) by (nonlinear_arith)
        requires
            q >= 1,
    ;
}

/// Some powers of two.
pub proof fn lemma_powers_of_two()
    ensures
        power(2, 16) == 0x1_0000,
        power(2, 52) == 0x10_0000_0000_0000,
        power(2, 53) == 0x20_0000_0000_0000,
        power(2, 64) == 0x1_0000_0000_0000_0000,
{
    assert(power(2, 16) == 0x1_0000) by {
        reveal_with_fuel(power, 17);
    }
    assert(power(2, 4) == 16) by {
        reveal_with_fuel(power, 5);
    }
    lemma_power_sum(2, 16, 16);
    lemma_power_sum(2, 32, 16);
    lemma_power_sum(2, 48, 16);
    lemma_power_sum(2, 48, 4);
    assert(power(2, 53) == 2 * power(2, 52));
}

/// A digit of a number in base two to the thirty-second power; zero past the last.
spec fn limb(s: Seq<u32>, i: int) -> nat {
    if 0 <= i < s.len() {
        s[i] as nat
    } else {
        0
    }
}

/// The value of a place.
spec fn place(i: nat) -> nat {
    power(0x1_0000_0000, i)
}

/// The number that the `n` least significant digits denote.
spec fn low(s: Seq<u32>, n: nat) -> nat
    decreases n,
{
    if n == 0 {
        0
    } else {
        low(s, (n - 1) as nat) + limb(s, n - 1) * place((n - 1) as nat)
    }
}

/// Digits past the last add nothing.
proof fn lemma_low_past(s: Seq<u32>, n: nat)
    requires
        n >= s.len(),
    ensures
        low(s, n) == low(s, s.len()),
    decreases n,
{
    if n > s.len() {
        lemma_low_past(s, (n - 1) as nat);
        assert(0 * place((n - 1) as nat) == 0);
    }
}

/// A digit on top does not change what the others denote.
proof fn lemma_low_push(s: Seq<u32>, x: u32, n: nat)
    requires
        n <= s.len(),
    ensures
        low(s.push(x), n) == low(s, n),
    decreases n,
{
    if n > 0 {
        lemma_low_push(s, x, (n - 1) as nat);
    }
}

/// What `n` digits denote is less than the value of the next place.
proof fn lemma_low_bound(s: Seq<u32>, n: nat)
    ensures
        low(s, n) < place(n),
    decreases n,
{
    if n > 0 {
        lemma_low_bound(s, (n - 1) as nat);
        let p = place((n - 1) as nat);
        let x = limb(s, n - 1);
        assert(x * p + p <= 0x1_0000_0000 * p) by (nonlinear_arith)
            requires
                x + 1 <= 0x1_0000_0000,
        ;
    }
}

/// A natural number of any size.
pub struct Natural {
    limbs: Vec<u32>,
}

impl View for Natural {
    type V = nat;

    closed spec fn view(&self) -> nat {
        low(self.limbs@, self.limbs@.len())
    }
}

impl Natural {
    /// Zero.
    pub fn zero() -> (r: Self)
        ensures
            r@ == 0,
    {
        Natural { limbs: Vec::new() }
    }

    /// A number that fits in a word.
    pub fn from_u64(n: u64) -> (r: Self)
        ensures
            r@ == n,
    {
        let high = Natural::small((n / 0x1_0000_0000) as u32);
        let middle = high.times_plus(0x1_0000, 0);
        middle.times_plus(0x1_0000, (n % 0x1_0000_0000) as u32)
    }

    /// A number that fits in one digit.
    fn small(n: u32) -> (r: Self)
        ensures
            r@ == n,
    {
        let mut limbs: Vec<u32> = Vec::new();
        limbs.push(n);
        let r = Natural { limbs };
        proof {
            reveal_with_fuel(low, 2);
            assert(place(0) == 1);
            assert(limb(r.limbs@, 0) == n as nat);
            assert(n as nat * 1 == n as nat);
        }
        r
    }

    /// A copy of the number.
    pub fn copy(&self) -> (r: Self)
        ensures
            r@ == self@,
    {
        let mut limbs: Vec<u32> = Vec::new();
        let mut i: usize = 0;
        while i < self.limbs.len()
            invariant
                i <= self.limbs.len(),
                limbs@ == self.limbs@.take(i as int),
            decreases self.limbs.len() - i,
        {
            limbs.push(self.limbs[i]);
            i += 1;
            assert(limbs@ =~= self.limbs@.take(i as int));
        }
        assert(limbs@ =~= self.limbs@);
        Natural { limbs }
    }

    /// The product with `m`, and `a` more.
    pub fn times_plus(&self, m: u32, a: u32) -> (r: Self)
        ensures
            r@ == self@ * m + a,
    {
        let ghost s = self.limbs@;
        let mut out: Vec<u32> = Vec::new();
        let mut carry: u64 = a as u64;
        let mut i: usize = 0;
        assert(place(0) == 1);
        assert(carry * 1 == carry);
        assert(0 * (m as nat) == 0);
        while i < self.limbs.len()
            invariant
                i <= self.limbs.len(),
                s == self.limbs@,
                out.len() == i,
                carry < 0x1_0000_0000,
                low(out@, i as nat) + carry * place(i as nat) == low(s, i as nat) * m + a,
            decreases self.limbs.len() - i,
        {
            let x: u32 = self.limbs[i];
            assert(x as u64 * m as u64 <= 0xffff_ffff * 0xffff_ffff) by (nonlinear_arith)
                requires
                    x <= 0xffff_ffff,
                    m <= 0xffff_ffff,
            ;
            let t: u64 = x as u64 * m as u64 + carry;
            let digit: u32 = (t % 0x1_0000_0000) as u32;
            let next: u64 = t / 0x1_0000_0000;
            let ghost before = out@;
            out.push(digit);
            proof {
                let p = place(i as nat);
                let low_out = low(before, i as nat);
                let low_s = low(s, i as nat);
                lemma_low_push(before, digit, i as nat);
                assert(limb(out@, i as int) == digit as nat);
                assert(limb(s, i as int) == x as nat);
                assert(low(out@, (i + 1) as nat) == low_out + digit as nat * p);
                assert(low(s, (i + 1) as nat) == low_s + x as nat * p);
                assert(place((i + 1) as nat) == 0x1_0000_0000 * p);
                assert(digit as nat + next as nat * 0x1_0000_0000 == x as nat * m as nat
                    + carry as nat);
                assert(low_out + digit as nat * p + next as nat * (0x1_0000_0000 * p) == (low_s
                    + x as nat * p) * m as nat + a as nat) by (nonlinear_arith)
                    requires
                        low_out + carry as nat * p == low_s * m as nat + a as nat,
                        digit as nat + next as nat * 0x1_0000_0000 == x as nat * m as nat
                            + carry as nat,
                ;
            }
            carry = next;
            i += 1;
        }
        let ghost before = out@;
        out.push(carry as u32);
        proof {
            lemma_low_push(before, carry as u32, i as nat);
            assert(limb(out@, i as int) == carry as nat);
        }
        Natural { limbs: out }
    }

    /// Twice the number.
    pub fn doubled(&self) -> (r: Self)
        ensures
            r@ == 2 * self@,
    {
        self.times_plus(2, 0)
    }

    /// The number times a power of two.
    pub fn shifted(&self, bits: u64) -> (r: Self)
        ensures
            r@ == self@ * power(2, bits as nat),
    {
        let mut out = self.copy();
        let mut k: u64 = 0;
        assert(power(2, 0) == 1);
        assert(self@ * 1 == self@);
        while k < bits
            invariant
                k <= bits,
                out@ == self@ * power(2, k as nat),
            decreases bits - k,
        {
            let ghost p = power(2, k as nat);
            if bits - k >= 16 {
                proof {
                    lemma_power_sum(2, k as nat, 16);
                    lemma_powers_of_two();
                    assert((self@ * p) * 0x1_0000 == self@ * (p * 0x1_0000)) by (nonlinear_arith);
                }
                out = out.times_plus(0x1_0000, 0);
                k += 16;
            } else {
                assert(2 * (self@ * p) == self@ * (2 * p)) by (nonlinear_arith);
                out = out.doubled();
                k += 1;
            }
        }
        out
    }

    /// The number times a power of ten.
    pub fn times_ten_to(&self, e: u128) -> (r: Self)
        ensures
            r@ == self@ * power(10, e as nat),
    {
        let mut out = self.copy();
        let mut k: u128 = 0;
        assert(power(10, 0) == 1);
        assert(self@ * 1 == self@);
        while k < e
            invariant
                k <= e,
                out@ == self@ * power(10, k as nat),
            decreases e - k,
        {
            let ghost p = power(10, k as nat);
            assert((self@ * p) * 10 == self@ * (10 * p)) by (nonlinear_arith);
            out = out.times_plus(10, 0);
            k += 1;
        }
        out
    }

    /// A digit, or zero past the last.
    fn limb_at(&self, i: usize) -> (r: u32)
        ensures
            r == limb(self.limbs@, i as int),
    {
        if i < self.limbs.len() {
            self.limbs[i]
        } else {
            0
        }
    }

    /// The number of digits of the longer of two numbers.
    fn length_with(&self, other: &Natural) -> (r: usize)
        ensures
            r >= self.limbs@.len(),
            r >= other.limbs@.len(),
    {
        if self.limbs.len() > other.limbs.len() {
            self.limbs.len()
        } else {
            other.limbs.len()
        }
    }

    /// The sum.
    pub fn plus(&self, other: &Natural) -> (r: Self)
        ensures
            r@ == self@ + other@,
    {
        let ghost a = self.limbs@;
        let ghost b = other.limbs@;
        let n = self.length_with(other);
        let mut out: Vec<u32> = Vec::new();
        let mut carry: u64 = 0;
        let mut i: usize = 0;
        while i < n
            invariant
                i <= n,
                a == self.limbs@,
                b == other.limbs@,
                out.len() == i,
                carry <= 1,
                low(out@, i as nat) + carry * place(i as nat) == low(a, i as nat) + low(
                    b,
                    i as nat,
                ),
            decreases n - i,
        {
            let x: u32 = self.limb_at(i);
            let y: u32 = other.limb_at(i);
            let t: u64 = x as u64 + y as u64 + carry;
            let digit: u32 = (t % 0x1_0000_0000) as u32;
            let next: u64 = t / 0x1_0000_0000;
            let ghost before = out@;
            out.push(digit);
            proof {
                let p = place(i as nat);
                lemma_low_push(before, digit, i as nat);
                assert(limb(out@, i as int) == digit as nat);
                assert(digit as nat + next as nat * 0x1_0000_0000 == x as nat + y as nat
                    + carry as nat);
                assert(digit as nat * p + next as nat * (0x1_0000_0000 * p) == x as nat * p
                    + y as nat * p + carry as nat * p) by (nonlinear_arith)
                    requires
                        digit as nat + next as nat * 0x1_0000_0000 == x as nat + y as nat
                            + carry as nat,
                ;
                assert(place((i + 1) as nat) == 0x1_0000_0000 * p);
            }
            carry = next;
            i += 1;
        }
        let ghost before = out@;
        out.push(carry as u32);
        proof {
            lemma_low_push(before, carry as u32, i as nat);
            assert(limb(out@, i as int) == carry as nat);
            lemma_low_past(a, n as nat);
            lemma_low_past(b, n as nat);
        }
        Natural { limbs: out }
    }

    /// The difference.
    pub fn minus(&self, other: &Natural) -> (r: Self)
        requires
            other@ <= self@,
        ensures
            r@ == self@ - other@,
    {
        let ghost a = self.limbs@;
        let ghost b = other.limbs@;
        let n = self.length_with(other);
        let mut out: Vec<u32> = Vec::new();
        let mut borrow: u64 = 0;
        let mut i: usize = 0;
        while i < n
            invariant
                i <= n,
                a == self.limbs@,
                b == other.limbs@,
                out.len() == i,
                borrow <= 1,
                low(out@, i as nat) + low(b, i as nat) == low(a, i as nat) + borrow * place(
                    i as nat,
                ),
            decreases n - i,
        {
            let x: u64 = self.limb_at(i) as u64;
            let y: u64 = other.limb_at(i) as u64 + borrow;
            let (digit, next): (u32, u64) = if x >= y {
                ((x - y) as u32, 0)
            } else {
                ((x + 0x1_0000_0000 - y) as u32, 1)
            };
            let ghost before = out@;
            out.push(digit);
            proof {
                let p = place(i as nat);
                let lb = limb(b, i as int);
                lemma_low_push(before, digit, i as nat);
                assert(limb(out@, i as int) == digit as nat);
                assert(digit as nat + lb + borrow as nat == x as nat + next as nat
                    * 0x1_0000_0000);
                assert(digit as nat * p + lb * p + borrow as nat * p == x as nat * p + next as nat
                    * (0x1_0000_0000 * p)) by (nonlinear_arith)
                    requires
                        digit as nat + lb + borrow as nat == x as nat + next as nat
                            * 0x1_0000_0000,
                ;
                assert(place((i + 1) as nat) == 0x1_0000_0000 * p);
            }
            borrow = next;
            i += 1;
        }
        proof {
            lemma_low_past(a, n as nat);
            lemma_low_past(b, n as nat);
            lemma_low_bound(out@, n as nat);
            assert(borrow == 0 || borrow * place(n as nat) == place(n as nat));
        }
        Natural { limbs: out }
    }

    /// Whether the number is less than another.
    pub fn less(&self, other: &Natural) -> (r: bool)
        ensures
            r == (self@ < other@),
    {
        let ghost a = self.limbs@;
        let ghost b = other.limbs@;
        let n = self.length_with(other);
        let mut k: usize = n;
        proof {
            lemma_low_past(a, n as nat);
            lemma_low_past(b, n as nat);
        }
        while k > 0
            invariant
                k <= n,
                a == self.limbs@,
                b == other.limbs@,
                self@ - low(a, k as nat) == other@ - low(b, k as nat),
            decreases k,
        {
            let x: u32 = self.limb_at(k - 1);
            let y: u32 = other.limb_at(k - 1);
            let ghost p = place((k - 1) as nat);
            proof {
                lemma_low_bound(a, (k - 1) as nat);
                lemma_low_bound(b, (k - 1) as nat);
            }
            if x < y {
                assert(x as nat * p + p <= y as nat * p) by (nonlinear_arith)
                    requires
                        x + 1 <= y,
                ;
                return true;
            }
            if y < x {
                assert(y as nat * p + p <= x as nat * p) by (nonlinear_arith)
                    requires
                        y + 1 <= x,
                ;
                return false;
            }
            k -= 1;
        }
        false
    }

    /// The product with a number that fits in a word.
    pub fn times_u64(&self, m: u64) -> (r: Self)
        ensures
            r@ == self@ * m,
    {
        let high: u32 = (m / 0x1_0000_0000) as u32;
        let rest: u32 = (m % 0x1_0000_0000) as u32;
        let upper = self.times_plus(high, 0).times_plus(0x1_0000, 0).times_plus(0x1_0000, 0);
        let lower = self.times_plus(rest, 0);
        proof {
            let s = self@;
            assert(m as nat == high as nat * 0x1_0000_0000 + rest as nat);
            assert(((s * high as nat) * 0x1_0000) * 0x1_0000 + s * rest as nat == s * m as nat)
                by (nonlinear_arith)
                requires
                    m as nat == high as nat * 0x1_0000_0000 + rest as nat,
            ;
        }
        upper.plus(&lower)
    }

    /// The quotient and the remainder.
    pub fn divided_by(&self, divisor: &Natural) -> (r: (u64, Natural))
        requires
            divisor@ > 0,
            self@ < divisor@ * 0x8000_0000_0000_0000,
        ensures
            self@ == r.0 * divisor@ + r.1@,
            r.1@ < divisor@,
        decreases (if self@ >= divisor@ {
            self@ - divisor@ + 1
        } else {
            0
        }),
    {
        if self.less(divisor) {
            assert(0 * divisor@ == 0);
            return (0, self.copy());
        }
        let twice = divisor.doubled();
        let (half, rest) = self.divided_by(&twice);
        let ghost d = divisor@;
        proof {
            assert(half < 0x4000_0000_0000_0000) by (nonlinear_arith)
                requires
                    half * (2 * d) <= self@,
                    self@ < d * 0x8000_0000_0000_0000,
                    d > 0,
            ;
            assert(half * (2 * d) == (2 * half) * d) by (nonlinear_arith);
        }
        if rest.less(divisor) {
            (2 * half, rest)
        } else {
            assert((2 * half) * d + d == (2 * half + 1) * d) by (nonlinear_arith);
            (2 * half + 1, rest.minus(divisor))
        }
    }
}

} // verus!
