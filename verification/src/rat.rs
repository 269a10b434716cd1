//! Exact rational scalars in canonical form.
//!
//! A `Rat` keeps a numerator and a positive denominator with no common factor,
//! so two equal values are structurally equal.  Arithmetic is computed with
//! 128-bit intermediates and renormalised; a result whose reduced numerator or
//! denominator does not fit the 64-bit component range is clamped, and the
//! specification functions model that clamping exactly.

use vstd::arithmetic::div_mod::*;
use vstd::arithmetic::mul::*;
use vstd::prelude::*;

verus! {

/// The most negative numerator a canonical rational may carry.
pub const NEG_MAX_I64: i64 = -9223372036854775807;

/// Absolute value of an integer, as a natural number.
pub open spec fn nabs(n: int) -> nat {
    if n < 0 {
        (-n) as nat
    } else {
        n as nat
    }
}

/// Greatest common divisor by the Euclidean recursion.
pub open spec fn gcd_spec(a: nat, b: nat) -> nat
    decreases b,
{
    if b == 0 {
        a
    } else {
        gcd_spec(b, a % b)
    }
}

pub proof fn lemma_gcd_pos(a: nat, b: nat)
    requires
        a > 0 || b > 0,
    ensures
        gcd_spec(a, b) > 0,
    decreases b,
{
    if b > 0 {
        lemma_gcd_pos(b, a % b);
    }
}

pub proof fn lemma_gcd_one(a: nat)
    ensures
        gcd_spec(a, 1) == 1,
{
    assert(a % 1 == 0) by {
        lemma_mod_breakdown_specific(a as int);
    }
    assert(gcd_spec(1, 0) == 1);
}

proof fn lemma_mod_breakdown_specific(a: int)
    requires
        a >= 0,
    ensures
        a % 1 == 0,
{
    lemma_mod_self_0(1);
    lemma_mod_multiples_basic(a, 1);
}

/// A multiple of a multiple of `g` is still a multiple of `g`.
proof fn lemma_divides_mul(b: nat, q: nat, g: nat)
    requires
        g > 0,
        b % g == 0,
    ensures
        (q * b) % g == 0,
{
    lemma_exact_div(b, g);
    assert(q * b == (q * (b / g)) * g) by {
        assert(b == g * (b / g));
        lemma_mul_is_associative(q as int, g as int, (b / g) as int);
        lemma_mul_is_commutative(g as int, (b / g) as int);
        lemma_mul_is_commutative(q as int, (b / g) as int);
        lemma_mul_is_associative(q as int, (b / g) as int, g as int);
        assert(q * (g * (b / g)) == q * ((b / g) * g));
    }
    lemma_mod_multiples_basic((q * (b / g)) as int, g as int);
}

/// The gcd divides both of its arguments.
pub proof fn lemma_gcd_divides(a: nat, b: nat)
    requires
        a > 0 || b > 0,
    ensures
        a % gcd_spec(a, b) == 0,
        b % gcd_spec(a, b) == 0,
    decreases b,
{
    let g = gcd_spec(a, b);
    lemma_gcd_pos(a, b);
    if b == 0 {
        lemma_mod_self_0(a as int);
        lemma_mod_multiples_basic(0, a as int);
    } else {
        let r = a % b;
        lemma_gcd_divides(b, r);
        // a == b * (a / b) + r, and g divides both b and r.
        lemma_fundamental_div_mod(a as int, b as int);
        lemma_divides_mul(b, a / b, g);
        lemma_mul_is_commutative(b as int, (a / b) as int);
        lemma_add_mod_noop(((a / b) * b) as int, r as int, g as int);
        lemma_mod_self_0(g as int);
        assert(r % g == 0);
        assert(a as int == b as int * (a / b) as int + r as int);
        assert(((a / b) * b + r) % g == (((a / b) * b) % g + r % g) % g);
        lemma_small_mod(0, g);
    }
}

/// Every common divisor of `a` and `b` divides their gcd.
pub proof fn lemma_gcd_greatest(a: nat, b: nat, d: nat)
    requires
        d > 0,
        a % d == 0,
        b % d == 0,
    ensures
        gcd_spec(a, b) % d == 0,
    decreases b,
{
    if b == 0 {
    } else {
        let r = a % b;
        lemma_fundamental_div_mod(a as int, b as int);
        lemma_divides_mul(b, a / b, d);
        lemma_mul_is_commutative(b as int, (a / b) as int);
        assert(r as int == a as int - ((a / b) * b) as int);
        lemma_sub_mod_noop(a as int, ((a / b) * b) as int, d as int);
        lemma_small_mod(0, d);
        assert(r % d == 0);
        lemma_gcd_greatest(b, r, d);
    }
}

/// If `d` divides `n` exactly then `n == d * (n / d)`.
proof fn lemma_exact_div(n: nat, d: nat)
    requires
        d > 0,
        n % d == 0,
    ensures
        n == d * (n / d),
        n / d <= n,
    decreases n,
{
    lemma_fundamental_div_mod(n as int, d as int);
    lemma_div_is_ordered_by_denominator(n as int, 1, d as int);
    lemma_div_by_one_specific(n);
}

proof fn lemma_div_by_one_specific(n: nat)
    ensures
        n / 1 == n,
{
    lemma_fundamental_div_mod(n as int, 1);
}

/// After dividing by the gcd, the quotients have no common factor left.
pub proof fn lemma_gcd_coprime_quotients(a: nat, b: nat)
    requires
        a > 0 || b > 0,
    ensures
        gcd_spec(a / gcd_spec(a, b), b / gcd_spec(a, b)) == 1,
{
    let g = gcd_spec(a, b);
    lemma_gcd_pos(a, b);
    lemma_gcd_divides(a, b);
    let aq = a / g;
    let bq = b / g;
    lemma_exact_div(a, g);
    lemma_exact_div(b, g);
    assert(aq > 0 || bq > 0) by {
        if a > 0 && aq == 0 {
            assert(a == g * 0);
        }
        if b > 0 && bq == 0 {
            assert(b == g * 0);
        }
    }
    let h = gcd_spec(aq, bq);
    lemma_gcd_pos(aq, bq);
    lemma_gcd_divides(aq, bq);
    lemma_exact_div(aq, h);
    lemma_exact_div(bq, h);
    // g * h divides a and b, hence divides g; since g > 0 this forces h == 1.
    assert(a == (g * h) * (aq / h)) by {
        assert(a == g * (h * (aq / h))) by {
            assert(aq == h * (aq / h));
        }
        lemma_mul_is_associative(g as int, h as int, (aq / h) as int);
    }
    assert(b == (g * h) * (bq / h)) by {
        assert(b == g * (h * (bq / h))) by {
            assert(bq == h * (bq / h));
        }
        lemma_mul_is_associative(g as int, h as int, (bq / h) as int);
    }
    assert(g * h > 0) by {
        lemma_mul_strictly_positive(g as int, h as int);
    }
    assert(a % (g * h) == 0) by {
        lemma_mod_multiples_basic((aq / h) as int, (g * h) as int);
        lemma_mul_is_commutative((aq / h) as int, (g * h) as int);
    }
    assert(b % (g * h) == 0) by {
        lemma_mod_multiples_basic((bq / h) as int, (g * h) as int);
        lemma_mul_is_commutative((bq / h) as int, (g * h) as int);
    }
    lemma_gcd_greatest(a, b, g * h);
    assert(g % (g * h) == 0);
    if h != 1 {
        assert(h >= 2);
        assert(g * h >= g * 2) by {
            lemma_mul_inequality(2, h as int, g as int);
            lemma_mul_is_commutative(2, g as int);
            lemma_mul_is_commutative(h as int, g as int);
        }
        lemma_exact_div(g, g * h);
        let q = g / (g * h);
        assert(g == (g * h) * q);
        if q == 0 {
            assert(g == (g * h) * 0);
        }
        assert(q >= 1);
        assert((g * h) * q >= (g * h) * 1) by {
            lemma_mul_inequality(1, q as int, (g * h) as int);
            lemma_mul_is_commutative(1, (g * h) as int);
            lemma_mul_is_commutative(q as int, (g * h) as int);
        }
        assert(false);
    }
}

/// The gcd is symmetric in its arguments.
pub proof fn lemma_gcd_comm(a: nat, b: nat)
    ensures
        gcd_spec(a, b) == gcd_spec(b, a),
{
    if a == 0 && b == 0 {
        assert(gcd_spec(0, 0) == 0);
    } else {
        lemma_gcd_divides(a, b);
        lemma_gcd_divides(b, a);
        lemma_gcd_pos(a, b);
        lemma_gcd_pos(b, a);
        lemma_gcd_greatest(a, b, gcd_spec(b, a));
        lemma_gcd_greatest(b, a, gcd_spec(a, b));
        let g1 = gcd_spec(a, b);
        let g2 = gcd_spec(b, a);
        lemma_exact_div(g1, g2);
        lemma_exact_div(g2, g1);
        let q1 = g1 / g2;
        let q2 = g2 / g1;
        assert(g1 == g2 * q1);
        assert(g2 == g1 * q2);
        if q1 == 0 {
            assert(g1 == g2 * 0);
        }
        if q2 == 0 {
            assert(g2 == g1 * 0);
        }
        assert(g1 >= g2 * 1 && g2 >= g1 * 1) by {
            lemma_mul_inequality(1, q1 as int, g2 as int);
            lemma_mul_is_commutative(1, g2 as int);
            lemma_mul_is_commutative(q1 as int, g2 as int);
            lemma_mul_inequality(1, q2 as int, g1 as int);
            lemma_mul_is_commutative(1, g1 as int);
            lemma_mul_is_commutative(q2 as int, g1 as int);
        }
    }
}

/// Euclid's algorithm.
pub fn gcd_u128(a0: u128, b0: u128) -> (g: u128)
    ensures
        g as nat == gcd_spec(a0 as nat, b0 as nat),
{
    let mut a: u128 = a0;
    let mut b: u128 = b0;
    while b != 0
        invariant
            gcd_spec(a as nat, b as nat) == gcd_spec(a0 as nat, b0 as nat),
        decreases b,
    {
        let r: u128 = a % b;
        a = b;
        b = r;
    }
    a
}

/// An exact rational number in canonical form: the denominator is positive,
/// numerator and denominator share no factor, and the numerator stays within
/// the symmetric range of `i64`.
#[derive(Clone, Copy, PartialEq, Eq, Structural, Debug)]
pub struct Rat {
    pub num: i64,
    pub den: i64,
}

impl Rat {
    /// Canonical-form invariant.
    pub open spec fn inv(self) -> bool {
        &&& 1 <= self.den
        &&& -i64::MAX <= self.num
        &&& gcd_spec(nabs(self.num as int), self.den as nat) == 1
    }
}

pub open spec fn rat_zero() -> Rat {
    Rat { num: 0, den: 1 }
}

pub open spec fn rat_one() -> Rat {
    Rat { num: 1, den: 1 }
}

/// The canonical rational with integer value `n` (exact when `n` fits `i64`).
pub open spec fn int_rat(n: int) -> Rat {
    Rat { num: n as i64, den: 1 }
}

/// Canonical form of the fraction `n / d` for `d >= 1`, with clamping when the
/// reduced components do not fit the 64-bit range.
pub open spec fn norm_spec(n: int, d: int) -> Rat {
    let m = nabs(n);
    let g = gcd_spec(m, nabs(d));
    let mq = m / g;
    let dq = nabs(d) / g;
    if dq > i64::MAX as nat {
        Rat { num: 0, den: 1 }
    } else if mq > i64::MAX as nat {
        if n < 0 {
            Rat { num: NEG_MAX_I64, den: 1 }
        } else {
            Rat { num: i64::MAX, den: 1 }
        }
    } else {
        let numv = if n < 0 {
            -(mq as int)
        } else {
            mq as int
        };
        Rat { num: numv as i64, den: dq as i64 }
    }
}

pub proof fn lemma_norm_inv(n: int, d: int)
    requires
        1 <= d,
    ensures
        norm_spec(n, d).inv(),
{
    let m = nabs(n);
    let g = gcd_spec(m, d as nat);
    lemma_gcd_pos(m, d as nat);
    lemma_gcd_divides(m, d as nat);
    let mq = m / g;
    let dq = (d as nat) / g;
    lemma_exact_div(d as nat, g);
    if dq == 0 {
        assert(d as nat == g * 0);
    }
    lemma_gcd_coprime_quotients(m, d as nat);
    if dq > i64::MAX as nat {
        lemma_gcd_one(0);
    } else if mq > i64::MAX as nat {
        lemma_gcd_one(i64::MAX as nat);
    } else {
        assert(nabs(norm_spec(n, d).num as int) == mq);
    }
}

/// A canonical value renormalises to itself.
pub proof fn lemma_norm_canonical(r: Rat)
    requires
        r.inv(),
    ensures
        norm_spec(r.num as int, r.den as int) == r,
{
    let m = nabs(r.num as int);
    let g = gcd_spec(m, r.den as nat);
    assert(g == 1);
    lemma_div_by_one_specific(m);
    lemma_div_by_one_specific(r.den as nat);
}

/// Reduce `n / d` to canonical form.
pub fn rat_norm(negative: bool, m: u128, d: u128) -> (r: Rat)
    requires
        1 <= d,
    ensures
        r == norm_spec(
            if negative {
                -(m as int)
            } else {
                m as int
            },
            d as int,
        ),
        r.inv(),
{
    proof {
        let n: int = if negative {
            -(m as int)
        } else {
            m as int
        };
        assert(nabs(n) == m as nat);
        lemma_norm_inv(n, d as int);
        lemma_gcd_pos(m as nat, d as nat);
        lemma_gcd_divides(m as nat, d as nat);
    }
    let g: u128 = gcd_u128(m, d);
    let mq: u128 = m / g;
    let dq: u128 = d / g;
    if dq > i64::MAX as u128 {
        Rat { num: 0, den: 1 }
    } else if mq > i64::MAX as u128 {
        if negative {
            Rat { num: NEG_MAX_I64, den: 1 }
        } else {
            Rat { num: i64::MAX, den: 1 }
        }
    } else {
        let numv: i64 = if negative && mq > 0 {
            -(mq as i64)
        } else {
            mq as i64
        };
        Rat { num: numv, den: dq as i64 }
    }
}

/// Reduce a signed 128-bit fraction to canonical form.
pub fn norm_i128(n: i128, d: i128) -> (r: Rat)
    requires
        1 <= d,
        i128::MIN < n,
    ensures
        r == norm_spec(n as int, d as int),
        r.inv(),
{
    if n < 0 {
        let m: u128 = (-n) as u128;
        assert(m as int == -(n as int));
        rat_norm(true, m, d as u128)
    } else {
        rat_norm(false, n as u128, d as u128)
    }
}

/// The value of `a + b`, in canonical clamped form.
pub open spec fn rat_add(a: Rat, b: Rat) -> Rat {
    norm_spec(a.num * b.den + b.num * a.den, a.den * b.den)
}

/// The value of `-a`.
pub open spec fn rat_neg(a: Rat) -> Rat {
    Rat { num: -a.num as i64, den: a.den }
}

/// The value of `a - b`.
pub open spec fn rat_sub(a: Rat, b: Rat) -> Rat {
    rat_add(a, rat_neg(b))
}

/// The value of `a * b`, in canonical clamped form.
pub open spec fn rat_mul(a: Rat, b: Rat) -> Rat {
    norm_spec(a.num * b.num, a.den * b.den)
}

/// The value of `1 / a` for `a != 0`.
pub open spec fn rat_recip(a: Rat) -> Rat {
    if a.num < 0 {
        Rat { num: -a.den as i64, den: (-(a.num as int)) as i64 }
    } else {
        Rat { num: a.den, den: a.num }
    }
}

/// Value order: `a < b` as rationals.
pub open spec fn rat_lt(a: Rat, b: Rat) -> bool {
    a.num * b.den < b.num * a.den
}

pub open spec fn rat_le(a: Rat, b: Rat) -> bool {
    a.num * b.den <= b.num * a.den
}

pub open spec fn rat_max(a: Rat, b: Rat) -> Rat {
    if rat_lt(a, b) {
        b
    } else {
        a
    }
}

proof fn lemma_abs_mul_le(a: int, b: int, bound_a: int, bound_b: int)
    requires
        nabs(a) <= bound_a,
        nabs(b) <= bound_b,
        0 <= bound_a,
        0 <= bound_b,
    ensures
        nabs(a * b) <= bound_a * bound_b,
    decreases 0int,
{
    assert(nabs(a * b) <= bound_a * bound_b) by (nonlinear_arith)
        requires
            nabs(a) <= bound_a,
            nabs(b) <= bound_b,
            0 <= bound_a,
            0 <= bound_b,
    ;
}

impl Rat {
    pub fn zero() -> (r: Rat)
        ensures
            r == rat_zero(),
            r.inv(),
    {
        proof {
            lemma_gcd_one(0);
        }
        Rat { num: 0, den: 1 }
    }

    pub fn one() -> (r: Rat)
        ensures
            r == rat_one(),
            r.inv(),
    {
        proof {
            lemma_gcd_one(1);
        }
        Rat { num: 1, den: 1 }
    }

    /// The rational with integer value `n`.
    pub fn from_int(n: i64) -> (r: Rat)
        requires
            -i64::MAX <= n,
        ensures
            r == int_rat(n as int),
            r.inv(),
    {
        proof {
            lemma_gcd_one(nabs(n as int));
        }
        Rat { num: n, den: 1 }
    }

    /// The canonical form of `n / d`.
    pub fn from_ratio(n: i64, d: i64) -> (r: Rat)
        requires
            1 <= d,
            -i64::MAX <= n,
        ensures
            r == norm_spec(n as int, d as int),
            r.inv(),
    {
        norm_i128(n as i128, d as i128)
    }

    pub fn add(self, other: Rat) -> (r: Rat)
        requires
            self.inv(),
            other.inv(),
        ensures
            r == rat_add(self, other),
            r.inv(),
    {
        proof {
            lemma_abs_mul_le(self.num as int, other.den as int, i64::MAX as int, i64::MAX as int);
            lemma_abs_mul_le(other.num as int, self.den as int, i64::MAX as int, i64::MAX as int);
            lemma_abs_mul_le(self.den as int, other.den as int, i64::MAX as int, i64::MAX as int);
        }
        proof {
            assert(self.den as int * other.den as int >= 1) by (nonlinear_arith)
                requires
                    self.den >= 1,
                    other.den >= 1,
            ;
        }
        let n: i128 = self.num as i128 * other.den as i128 + other.num as i128 * self.den as i128;
        let d: i128 = self.den as i128 * other.den as i128;
        norm_i128(n, d)
    }

    pub fn neg(self) -> (r: Rat)
        requires
            self.inv(),
        ensures
            r == rat_neg(self),
            r.inv(),
    {
        proof {
            assert(nabs(-(self.num as int)) == nabs(self.num as int));
        }
        Rat { num: -self.num, den: self.den }
    }

    pub fn sub(self, other: Rat) -> (r: Rat)
        requires
            self.inv(),
            other.inv(),
        ensures
            r == rat_sub(self, other),
            r.inv(),
    {
        self.add(other.neg())
    }

    pub fn mul(self, other: Rat) -> (r: Rat)
        requires
            self.inv(),
            other.inv(),
        ensures
            r == rat_mul(self, other),
            r.inv(),
    {
        proof {
            lemma_abs_mul_le(self.num as int, other.num as int, i64::MAX as int, i64::MAX as int);
            lemma_abs_mul_le(self.den as int, other.den as int, i64::MAX as int, i64::MAX as int);
        }
        proof {
            assert(self.den as int * other.den as int >= 1) by (nonlinear_arith)
                requires
                    self.den >= 1,
                    other.den >= 1,
            ;
        }
        let n: i128 = self.num as i128 * other.num as i128;
        let d: i128 = self.den as i128 * other.den as i128;
        norm_i128(n, d)
    }

    /// Multiplicative inverse of a non-zero rational.
    pub fn recip(self) -> (r: Rat)
        requires
            self.inv(),
            self.num != 0,
        ensures
            r == rat_recip(self),
            r.inv(),
    {
        proof {
            lemma_gcd_comm(nabs(self.num as int), self.den as nat);
        }
        if self.num < 0 {
            Rat { num: -self.den, den: -self.num }
        } else {
            Rat { num: self.den, den: self.num }
        }
    }

    pub fn lt(self, other: Rat) -> (r: bool)
        requires
            self.inv(),
            other.inv(),
        ensures
            r == rat_lt(self, other),
    {
        proof {
            lemma_abs_mul_le(self.num as int, other.den as int, i64::MAX as int, i64::MAX as int);
            lemma_abs_mul_le(other.num as int, self.den as int, i64::MAX as int, i64::MAX as int);
        }
        let lhs: i128 = self.num as i128 * other.den as i128;
        let rhs: i128 = other.num as i128 * self.den as i128;
        lhs < rhs
    }

    pub fn le(self, other: Rat) -> (r: bool)
        requires
            self.inv(),
            other.inv(),
        ensures
            r == rat_le(self, other),
    {
        proof {
            lemma_abs_mul_le(self.num as int, other.den as int, i64::MAX as int, i64::MAX as int);
            lemma_abs_mul_le(other.num as int, self.den as int, i64::MAX as int, i64::MAX as int);
        }
        let lhs: i128 = self.num as i128 * other.den as i128;
        let rhs: i128 = other.num as i128 * self.den as i128;
        lhs <= rhs
    }

    pub fn max(self, other: Rat) -> (r: Rat)
        requires
            self.inv(),
            other.inv(),
        ensures
            r == rat_max(self, other),
            r.inv(),
    {
        if self.lt(other) {
            other
        } else {
            self
        }
    }
}

/// The value order is transitive across a non-strict step.
pub proof fn lemma_rat_le_lt_trans(a: Rat, b: Rat, c: Rat)
    requires
        a.inv(),
        b.inv(),
        c.inv(),
        rat_le(a, b),
        rat_lt(b, c),
    ensures
        rat_lt(a, c),
{
    assert(a.num * c.den < c.num * a.den) by (nonlinear_arith)
        requires
            a.num * b.den <= b.num * a.den,
            b.num * c.den < c.num * b.den,
            a.den >= 1,
            b.den >= 1,
            c.den >= 1,
    ;
}

/// The canonical clamped product stays canonical.
pub proof fn lemma_rat_mul_inv(a: Rat, b: Rat)
    requires
        a.inv(),
        b.inv(),
    ensures
        rat_mul(a, b).inv(),
{
    assert(a.den as int * b.den as int >= 1) by (nonlinear_arith)
        requires
            a.den >= 1,
            b.den >= 1,
    ;
    lemma_norm_inv(a.num * b.num, a.den * b.den);
}

/// Left-to-right sum of a sequence of rationals, starting from zero.
pub open spec fn seq_rat_sum(s: Seq<Rat>) -> Rat
    decreases s.len(),
{
    if s.len() == 0 {
        rat_zero()
    } else {
        rat_add(seq_rat_sum(s.drop_last()), s.last())
    }
}

/// Adding zero changes nothing.
pub proof fn lemma_add_zero(a: Rat)
    requires
        a.inv(),
    ensures
        rat_add(a, rat_zero()) == a,
        rat_add(rat_zero(), a) == a,
{
    assert(a.num * 1 + 0 * a.den == a.num as int);
    assert(0 * a.den + a.num * 1 == a.num as int);
    assert(a.den * 1 == a.den as int);
    assert(1 * a.den == a.den as int);
    lemma_norm_canonical(a);
}

/// Integer-valued rationals add like integers while they fit.
pub proof fn lemma_add_int(a: int, b: int)
    requires
        nabs(a) <= i64::MAX,
        nabs(b) <= i64::MAX,
        nabs(a + b) <= i64::MAX,
    ensures
        rat_add(int_rat(a), int_rat(b)) == int_rat(a + b),
{
    assert(int_rat(a).num as int == a);
    assert(int_rat(b).num as int == b);
    assert(a * 1 + b * 1 == a + b);
    lemma_gcd_one(nabs(a + b));
    lemma_norm_canonical(int_rat(a + b));
}

} // verus!
