//! Exact rational numbers.
//!
//! A `Ratio` is a fraction of two `i64` values with a positive
//! denominator. Its mathematical value is modelled by the spec-level
//! pair [`Rat`]; two pairs denote the same value exactly when they are
//! related by [`rat_eqv`] (equal cross products). Executable results
//! are reduced by a greatest common divisor so that values stay small,
//! and an operation reports [`NumError::Overflow`] exactly when the
//! reduced result does not fit the representation.

use vstd::prelude::*;

use crate::error::NumError;

verus! {

/// The mathematical value of a rational: a numerator over a
/// (positive) denominator, both unbounded integers.
pub ghost struct Rat {
    pub n: int,
    pub d: int,
}

/// A well-formed rational value has a positive denominator.
pub open spec fn rat_wf(a: Rat) -> bool {
    a.d > 0
}

/// Two pairs denote the same rational value: `a.n/a.d == b.n/b.d`,
/// stated by cross multiplication.
pub open spec fn rat_eqv(a: Rat, b: Rat) -> bool {
    a.n * b.d == b.n * a.d
}

/// The rational value of an integer.
pub open spec fn rat_of_int(i: int) -> Rat {
    Rat { n: i, d: 1 }
}

/// Exact sum.
pub open spec fn rat_add(a: Rat, b: Rat) -> Rat {
    Rat { n: a.n * b.d + b.n * a.d, d: a.d * b.d }
}

/// Exact difference.
pub open spec fn rat_sub(a: Rat, b: Rat) -> Rat {
    Rat { n: a.n * b.d - b.n * a.d, d: a.d * b.d }
}

/// Exact product.
pub open spec fn rat_mul(a: Rat, b: Rat) -> Rat {
    Rat { n: a.n * b.n, d: a.d * b.d }
}

/// Exact quotient, with the sign moved into the numerator so that the
/// result is well-formed whenever `b.n != 0`.
pub open spec fn rat_div(a: Rat, b: Rat) -> Rat {
    if b.n >= 0 {
        Rat { n: a.n * b.d, d: a.d * b.n }
    } else {
        Rat { n: -(a.n * b.d), d: -(a.d * b.n) }
    }
}

/// Exact negation.
pub open spec fn rat_neg(a: Rat) -> Rat {
    Rat { n: -a.n, d: a.d }
}

/// Exact absolute value.
pub open spec fn rat_abs(a: Rat) -> Rat {
    Rat { n: if a.n < 0 { -a.n } else { a.n }, d: a.d }
}

/// `a <= b` on values, by cross multiplication (for well-formed pairs).
pub open spec fn rat_le(a: Rat, b: Rat) -> bool {
    a.n * b.d <= b.n * a.d
}

/// `a < b` on values, by cross multiplication (for well-formed pairs).
pub open spec fn rat_lt(a: Rat, b: Rat) -> bool {
    a.n * b.d < b.n * a.d
}

/// The value is exactly zero.
pub open spec fn rat_is_zero(a: Rat) -> bool {
    a.n == 0
}

/// The value is zero or positive. This mirrors the sign test the
/// algorithms use to compare function values.
pub open spec fn rat_nonneg(a: Rat) -> bool {
    a.n >= 0
}

/// Euclid's greatest common divisor on natural numbers.
pub open spec fn gcd_nat(a: nat, b: nat) -> nat
    decreases b,
{
    if b == 0 {
        a
    } else {
        gcd_nat(b, a % b)
    }
}

/// The magnitude of an integer, as a natural number.
pub open spec fn abs_int(i: int) -> nat {
    if i < 0 {
        (-i) as nat
    } else {
        i as nat
    }
}

/// The fully reduced form of the fraction `n / d` (for `d > 0`): both
/// components divided by their greatest common divisor.
pub open spec fn rat_norm(n: int, d: int) -> Rat {
    if n == 0 {
        Rat { n: 0, d: 1 }
    } else {
        let g = gcd_nat(abs_int(n), abs_int(d)) as int;
        Rat { n: n / g, d: d / g }
    }
}

/// The integer lies within the `i128` range.
pub open spec fn in_i128(x: int) -> bool {
    i128::MIN <= x <= i128::MAX
}

/// The reduced form of the value fits the `i64`-backed representation.
pub open spec fn rat_norm_fits(n: int, d: int) -> bool {
    &&& i64::MIN <= rat_norm(n, d).n <= i64::MAX
    &&& rat_norm(n, d).d <= i64::MAX
}

/// The canonical (fully reduced) representative of a pair: what the
/// executable operations actually store.
pub open spec fn rat_canon(r: Rat) -> Rat {
    rat_norm(r.n, r.d)
}

/// The exact condition under which an executable sum succeeds: the
/// raw cross products stay within `i128` and the reduced result fits.
pub open spec fn rat_add_fits(a: Rat, b: Rat) -> bool {
    in_i128(rat_add(a, b).n) && rat_norm_fits(rat_add(a, b).n, rat_add(a, b).d)
}

/// The exact condition under which an executable difference succeeds.
pub open spec fn rat_sub_fits(a: Rat, b: Rat) -> bool {
    in_i128(rat_sub(a, b).n) && rat_norm_fits(rat_sub(a, b).n, rat_sub(a, b).d)
}

/// The exact condition under which an executable product succeeds.
pub open spec fn rat_mul_fits(a: Rat, b: Rat) -> bool {
    rat_norm_fits(rat_mul(a, b).n, rat_mul(a, b).d)
}

/// The exact condition under which an executable quotient succeeds.
pub open spec fn rat_div_fits(a: Rat, b: Rat) -> bool {
    rat_norm_fits(rat_div(a, b).n, rat_div(a, b).d)
}

/// The exact condition under which an executable negation succeeds.
pub open spec fn rat_neg_fits(a: Rat) -> bool {
    rat_norm_fits(rat_neg(a).n, rat_neg(a).d)
}

/// The exact condition under which an executable absolute value
/// succeeds (a nonnegative value is returned unchanged).
pub open spec fn rat_abs_fits(a: Rat) -> bool {
    rat_nonneg(a) || rat_norm_fits(rat_abs(a).n, rat_abs(a).d)
}

/// The product of two `i64`-range integers stays within the `i128` range.
pub proof fn lemma_i64_prod_fits(a: int, b: int)
    by (nonlinear_arith)
    requires
        i64::MIN <= a <= i64::MAX,
        i64::MIN <= b <= i64::MAX,
    ensures
        -0x4000_0000_0000_0000_0000_0000_0000_0000 <= a * b
            <= 0x4000_0000_0000_0000_0000_0000_0000_0000,
{
}

/// The rational value zero.
pub open spec fn rat_zero() -> Rat {
    Rat { n: 0, d: 1 }
}

/// The rational value one.
pub open spec fn rat_one() -> Rat {
    Rat { n: 1, d: 1 }
}

/// Value equivalence is transitive (on well-formed pairs).
pub proof fn lemma_eqv_trans(a: Rat, b: Rat, c: Rat)
    by (nonlinear_arith)
    requires
        rat_wf(a),
        rat_wf(b),
        rat_wf(c),
        rat_eqv(a, b),
        rat_eqv(b, c),
    ensures
        rat_eqv(a, c),
{
}

/// Value equivalence is symmetric.
pub proof fn lemma_eqv_sym(a: Rat, b: Rat)
    requires
        rat_eqv(a, b),
    ensures
        rat_eqv(b, a),
{
}

/// Sums of equivalent operands are equivalent.
pub proof fn lemma_add_congr(a: Rat, a2: Rat, b: Rat, b2: Rat)
    requires
        rat_wf(a),
        rat_wf(a2),
        rat_wf(b),
        rat_wf(b2),
        rat_eqv(a, a2),
        rat_eqv(b, b2),
    ensures
        rat_eqv(rat_add(a, b), rat_add(a2, b2)),
{
    assert((a.n * b.d) * (a2.d * b2.d) == (a2.n * b2.d) * (a.d * b.d)) by (nonlinear_arith)
        requires
            a.n * a2.d == a2.n * a.d,
    ;
    assert((b.n * a.d) * (a2.d * b2.d) == (b2.n * a2.d) * (a.d * b.d)) by (nonlinear_arith)
        requires
            b.n * b2.d == b2.n * b.d,
    ;
    assert(((a.n * b.d) + (b.n * a.d)) * (a2.d * b2.d) == ((a2.n * b2.d) + (b2.n * a2.d)) * (a.d
        * b.d)) by (nonlinear_arith)
        requires
            (a.n * b.d) * (a2.d * b2.d) == (a2.n * b2.d) * (a.d * b.d),
            (b.n * a.d) * (a2.d * b2.d) == (b2.n * a2.d) * (a.d * b.d),
    ;
}

/// Differences of equivalent operands are equivalent.
pub proof fn lemma_sub_congr(a: Rat, a2: Rat, b: Rat, b2: Rat)
    requires
        rat_wf(a),
        rat_wf(a2),
        rat_wf(b),
        rat_wf(b2),
        rat_eqv(a, a2),
        rat_eqv(b, b2),
    ensures
        rat_eqv(rat_sub(a, b), rat_sub(a2, b2)),
{
    assert((a.n * b.d) * (a2.d * b2.d) == (a2.n * b2.d) * (a.d * b.d)) by (nonlinear_arith)
        requires
            a.n * a2.d == a2.n * a.d,
    ;
    assert((b.n * a.d) * (a2.d * b2.d) == (b2.n * a2.d) * (a.d * b.d)) by (nonlinear_arith)
        requires
            b.n * b2.d == b2.n * b.d,
    ;
    assert(((a.n * b.d) - (b.n * a.d)) * (a2.d * b2.d) == ((a2.n * b2.d) - (b2.n * a2.d)) * (a.d
        * b.d)) by (nonlinear_arith)
        requires
            (a.n * b.d) * (a2.d * b2.d) == (a2.n * b2.d) * (a.d * b.d),
            (b.n * a.d) * (a2.d * b2.d) == (b2.n * a2.d) * (a.d * b.d),
    ;
}

/// Products of equivalent operands are equivalent.
pub proof fn lemma_mul_congr(a: Rat, a2: Rat, b: Rat, b2: Rat)
    requires
        rat_wf(a),
        rat_wf(a2),
        rat_wf(b),
        rat_wf(b2),
        rat_eqv(a, a2),
        rat_eqv(b, b2),
    ensures
        rat_eqv(rat_mul(a, b), rat_mul(a2, b2)),
{
    assert((a.n * b.n) * (a2.d * b2.d) == (a2.n * b2.n) * (a.d * b.d)) by (nonlinear_arith)
        requires
            a.n * a2.d == a2.n * a.d,
            b.n * b2.d == b2.n * b.d,
    ;
}

/// Quotients of equivalent operands are equivalent, and a nonzero
/// divisor stays nonzero under equivalence.
pub proof fn lemma_div_congr(a: Rat, a2: Rat, b: Rat, b2: Rat)
    requires
        rat_wf(a),
        rat_wf(a2),
        rat_wf(b),
        rat_wf(b2),
        rat_eqv(a, a2),
        rat_eqv(b, b2),
        b.n != 0,
    ensures
        b2.n != 0,
        rat_eqv(rat_div(a, b), rat_div(a2, b2)),
{
    assert(b2.n != 0) by (nonlinear_arith)
        requires
            b.n * b2.d == b2.n * b.d,
            b.n != 0,
            b.d > 0,
            b2.d > 0,
    ;
    assert((a.n * b.d) * (a2.d * b2.n) == (a2.n * a.d) * (b.d * b2.n)) by (nonlinear_arith)
        requires
            a.n * a2.d == a2.n * a.d,
    ;
    assert((a2.n * a.d) * (b.d * b2.n) == (a2.n * a.d) * (b.n * b2.d)) by (nonlinear_arith)
        requires
            b.n * b2.d == b2.n * b.d,
    ;
    assert((a2.n * a.d) * (b.n * b2.d) == (a2.n * b2.d) * (a.d * b.n)) by (nonlinear_arith);
    let core = (a.n * b.d) * (a2.d * b2.n) == (a2.n * b2.d) * (a.d * b.n);
    assert(core);
    let p = rat_div(a, b);
    let p2 = rat_div(a2, b2);
    if b.n >= 0 {
        if b2.n >= 0 {
            assert(p.n * p2.d == p2.n * p.d) by (nonlinear_arith)
                requires
                    p.n == a.n * b.d,
                    p.d == a.d * b.n,
                    p2.n == a2.n * b2.d,
                    p2.d == a2.d * b2.n,
                    (a.n * b.d) * (a2.d * b2.n) == (a2.n * b2.d) * (a.d * b.n),
            ;
        } else {
            assert(p.n * p2.d == p2.n * p.d) by (nonlinear_arith)
                requires
                    p.n == a.n * b.d,
                    p.d == a.d * b.n,
                    p2.n == -(a2.n * b2.d),
                    p2.d == -(a2.d * b2.n),
                    (a.n * b.d) * (a2.d * b2.n) == (a2.n * b2.d) * (a.d * b.n),
            ;
        }
    } else {
        if b2.n >= 0 {
            assert(p.n * p2.d == p2.n * p.d) by (nonlinear_arith)
                requires
                    p.n == -(a.n * b.d),
                    p.d == -(a.d * b.n),
                    p2.n == a2.n * b2.d,
                    p2.d == a2.d * b2.n,
                    (a.n * b.d) * (a2.d * b2.n) == (a2.n * b2.d) * (a.d * b.n),
            ;
        } else {
            assert(p.n * p2.d == p2.n * p.d) by (nonlinear_arith)
                requires
                    p.n == -(a.n * b.d),
                    p.d == -(a.d * b.n),
                    p2.n == -(a2.n * b2.d),
                    p2.d == -(a2.d * b2.n),
                    (a.n * b.d) * (a2.d * b2.n) == (a2.n * b2.d) * (a.d * b.n),
            ;
        }
    }
}

/// Negations of equivalent operands are equivalent.
pub proof fn lemma_neg_congr(a: Rat, a2: Rat)
    by (nonlinear_arith)
    requires
        rat_eqv(a, a2),
    ensures
        rat_eqv(rat_neg(a), rat_neg(a2)),
{
}

/// Absolute values of equivalent operands are equivalent.
pub proof fn lemma_abs_congr(a: Rat, a2: Rat)
    by (nonlinear_arith)
    requires
        rat_wf(a),
        rat_wf(a2),
        rat_eqv(a, a2),
    ensures
        rat_eqv(rat_abs(a), rat_abs(a2)),
{
}

/// Adding zero does not change the value.
pub proof fn lemma_add_zero(a: Rat)
    by (nonlinear_arith)
    requires
        rat_wf(a),
    ensures
        rat_eqv(rat_add(a, rat_of_int(0)), a),
        rat_eqv(a, rat_add(a, rat_of_int(0))),
{
}

/// Addition associates, up to value equivalence.
pub proof fn lemma_add_assoc(a: Rat, b: Rat, c: Rat)
    requires
        rat_wf(a),
        rat_wf(b),
        rat_wf(c),
    ensures
        rat_eqv(rat_add(a, rat_add(b, c)), rat_add(rat_add(a, b), c)),
{
    let l = rat_add(a, rat_add(b, c));
    let r = rat_add(rat_add(a, b), c);
    assert(l.n == a.n * b.d * c.d + b.n * c.d * a.d + c.n * b.d * a.d) by (nonlinear_arith)
        requires
            l.n == a.n * (b.d * c.d) + (b.n * c.d + c.n * b.d) * a.d,
    ;
    assert(r.n == a.n * b.d * c.d + b.n * c.d * a.d + c.n * b.d * a.d) by (nonlinear_arith)
        requires
            r.n == (a.n * b.d + b.n * a.d) * c.d + c.n * (a.d * b.d),
    ;
    assert(l.d == r.d) by (nonlinear_arith)
        requires
            l.d == a.d * (b.d * c.d),
            r.d == (a.d * b.d) * c.d,
    ;
    assert(l.n * r.d == r.n * l.d);
}

/// A difference can absorb the leading summand:
/// `a + (b - c)` and `(a + b) - c` denote the same value.
pub proof fn lemma_add_sub_shift(a: Rat, b: Rat, c: Rat)
    requires
        rat_wf(a),
        rat_wf(b),
        rat_wf(c),
    ensures
        rat_eqv(rat_add(a, rat_sub(b, c)), rat_sub(rat_add(a, b), c)),
{
    let l = rat_add(a, rat_sub(b, c));
    let r = rat_sub(rat_add(a, b), c);
    assert(l.n == a.n * b.d * c.d + b.n * c.d * a.d - c.n * b.d * a.d) by (nonlinear_arith)
        requires
            l.n == a.n * (b.d * c.d) + (b.n * c.d - c.n * b.d) * a.d,
    ;
    assert(r.n == a.n * b.d * c.d + b.n * c.d * a.d - c.n * b.d * a.d) by (nonlinear_arith)
        requires
            r.n == (a.n * b.d + b.n * a.d) * c.d - c.n * (a.d * b.d),
    ;
    assert(l.d == r.d) by (nonlinear_arith)
        requires
            l.d == a.d * (b.d * c.d),
            r.d == (a.d * b.d) * c.d,
    ;
    assert(l.n * r.d == r.n * l.d);
}

/// Comparisons and sign tests respect value equivalence.
pub proof fn lemma_cmp_congr(a: Rat, a2: Rat, b: Rat, b2: Rat)
    by (nonlinear_arith)
    requires
        rat_wf(a),
        rat_wf(a2),
        rat_wf(b),
        rat_wf(b2),
        rat_eqv(a, a2),
        rat_eqv(b, b2),
    ensures
        rat_le(a, b) == rat_le(a2, b2),
        rat_lt(a, b) == rat_lt(a2, b2),
        rat_eqv(a, b) == rat_eqv(a2, b2),
        rat_is_zero(a) == rat_is_zero(a2),
        rat_nonneg(a) == rat_nonneg(a2),
{
}

/// The exact operations preserve well-formedness.
pub proof fn lemma_ops_wf(a: Rat, b: Rat)
    by (nonlinear_arith)
    requires
        rat_wf(a),
        rat_wf(b),
    ensures
        rat_wf(rat_add(a, b)),
        rat_wf(rat_sub(a, b)),
        rat_wf(rat_mul(a, b)),
        rat_wf(rat_neg(a)),
        rat_wf(rat_abs(a)),
        b.n != 0 ==> rat_wf(rat_div(a, b)),
{
}

/// Every element of the sequence is a well-formed rational value.
pub open spec fn rats_wf(cs: Seq<Rat>) -> bool {
    forall|i: int| 0 <= i < cs.len() ==> rat_wf(#[trigger] cs[i])
}

/// `g` divides `x` without remainder.
pub open spec fn divides(g: nat, x: nat) -> bool {
    exists|k: nat| x == #[trigger] (k * g)
}

/// Euclid's algorithm yields a positive common divisor of both inputs
/// (unless both are zero).
pub proof fn lemma_gcd_divides(a: nat, b: nat)
    ensures
        divides(gcd_nat(a, b), a),
        divides(gcd_nat(a, b), b),
        a > 0 || b > 0 ==> gcd_nat(a, b) > 0,
    decreases b,
{
    if b == 0 {
        assert(a == 1 * gcd_nat(a, b));
        assert(b == 0 * gcd_nat(a, b));
    } else {
        vstd::arithmetic::div_mod::lemma_mod_decreases(a, b);
        lemma_gcd_divides(b, a % b);
        let g = gcd_nat(a, b);
        assert(g == gcd_nat(b, a % b));
        let kb = choose|k: nat| b == #[trigger] (k * g);
        let kr = choose|k: nat| a % b == #[trigger] (k * g);
        vstd::arithmetic::div_mod::lemma_fundamental_div_mod(a as int, b as int);
        let q = a as int / b as int;
        assert(a == q * b + a % b);
        assert(a == (q * kb + kr) * g) by (nonlinear_arith)
            requires
                a == q * b + a % b,
                b == kb * g,
                a % b == kr * g,
        ;
        assert(q >= 0) by {
            vstd::arithmetic::div_mod::lemma_div_is_ordered(0, a as int, b as int);
        }
        assert(a == ((q * kb + kr) as nat) * g);
    }
}

/// An exact rational number: `num / den` with `den > 0`.
#[derive(Clone, Copy, Debug)]
pub struct Ratio {
    num: i64,
    den: i64,
}

impl View for Ratio {
    type V = Rat;

    closed spec fn view(&self) -> Rat {
        Rat { n: self.num as int, d: self.den as int }
    }
}

impl Ratio {
    /// Denominators are kept positive.
    #[verifier::type_invariant]
    pub closed spec fn inv(self) -> bool {
        self.den > 0
    }

    /// The internal invariant guarantees a well-formed value.
    pub proof fn lemma_inv_wf(c: Ratio)
        requires
            c.inv(),
        ensures
            rat_wf(c@),
    {
    }

    /// The rational with the integer value `i`.
    pub fn from_int(i: i64) -> (r: Ratio)
        ensures
            r@ == rat_of_int(i as int),
    {
        Ratio { num: i, den: 1 }
    }

    /// The numerator of the stored representation.
    pub fn numer(&self) -> (r: i64)
        ensures
            r as int == self@.n,
    {
        self.num
    }

    /// The denominator of the stored representation; always positive.
    pub fn denom(&self) -> (r: i64)
        ensures
            r as int == self@.d,
            r > 0,
    {
        proof {
            use_type_invariant(self);
        }
        self.den
    }

    /// Whether the value is exactly zero.
    pub fn is_zero(&self) -> (r: bool)
        ensures
            r == rat_is_zero(self@),
    {
        self.num == 0
    }

    /// Whether the value is zero or positive.
    pub fn is_nonneg(&self) -> (r: bool)
        ensures
            r == rat_nonneg(self@),
    {
        self.num >= 0
    }

    /// Value equality: `self` and `other` denote the same rational.
    pub fn eq_val(&self, other: &Ratio) -> (r: bool)
        ensures
            r == rat_eqv(self@, other@),
    {
        proof {
            lemma_i64_prod_fits(self.num as int, other.den as int);
            lemma_i64_prod_fits(other.num as int, self.den as int);
        }
        (self.num as i128) * (other.den as i128) == (other.num as i128) * (self.den as i128)
    }

    /// Builds the rational `num / den`; a zero denominator is a
    /// [`NumError::DomainError`].
    pub fn new(num: i64, den: i64) -> (r: Result<Ratio, NumError>)
        ensures
            den == 0 ==> r == Result::<Ratio, NumError>::Err(NumError::DomainError),
            den != 0 ==> match r {
                Ok(v) => rat_eqv(v@, Rat { n: num as int, d: den as int }),
                Err(e) => e == NumError::Overflow,
            },
            den > 0 ==> r is Ok,
    {
        if den == 0 {
            return Err(NumError::DomainError);
        }
        if den < 0 {
            let r = reduce(-(num as i128), -(den as i128));
            proof {
                if let Ok(v) = r {
                    assert(rat_eqv(v@, Rat { n: -(num as int), d: -(den as int) }));
                    assert(v@.n * (den as int) == (num as int) * v@.d) by (nonlinear_arith)
                        requires
                            v@.n * (-(den as int)) == (-(num as int)) * v@.d,
                    ;
                }
            }
            r
        } else {
            reduce(num as i128, den as i128)
        }
    }

    /// Value comparison `self <= other`.
    pub fn le(&self, other: &Ratio) -> (r: bool)
        ensures
            r == rat_le(self@, other@),
    {
        proof {
            use_type_invariant(self);
            use_type_invariant(other);
            lemma_i64_prod_fits(self.num as int, other.den as int);
            lemma_i64_prod_fits(other.num as int, self.den as int);
        }
        (self.num as i128) * (other.den as i128) <= (other.num as i128) * (self.den as i128)
    }

    /// Exact sum; fails only when the reduced result leaves the
    /// representable range.
    pub fn add(&self, other: &Ratio) -> (r: Result<Ratio, NumError>)
        ensures
            match r {
                Ok(v) => rat_eqv(v@, rat_add(self@, other@)) && v@ == rat_canon(
                    rat_add(self@, other@),
                ),
                Err(e) => e == NumError::Overflow,
            },
            r is Ok <==> rat_add_fits(self@, other@),
    {
        proof {
            use_type_invariant(self);
            use_type_invariant(other);
            lemma_i64_prod_fits(self.num as int, other.den as int);
            lemma_i64_prod_fits(other.num as int, self.den as int);
            lemma_i64_prod_fits(self.den as int, other.den as int);
        }
        let p1 = (self.num as i128) * (other.den as i128);
        let p2 = (other.num as i128) * (self.den as i128);
        let den = (self.den as i128) * (other.den as i128);
        proof {
            assert(den > 0) by (nonlinear_arith)
                requires
                    den == (self@.d) * (other@.d),
                    self@.d > 0,
                    other@.d > 0,
            ;
        }
        let n = match p1.checked_add(p2) {
            Some(v) => v,
            None => {
                return Err(NumError::Overflow);
            },
        };
        reduce(n, den)
    }

    /// Exact difference; fails only when the reduced result leaves the
    /// representable range.
    pub fn sub(&self, other: &Ratio) -> (r: Result<Ratio, NumError>)
        ensures
            match r {
                Ok(v) => rat_eqv(v@, rat_sub(self@, other@)) && v@ == rat_canon(
                    rat_sub(self@, other@),
                ),
                Err(e) => e == NumError::Overflow,
            },
            r is Ok <==> rat_sub_fits(self@, other@),
    {
        proof {
            use_type_invariant(self);
            use_type_invariant(other);
            lemma_i64_prod_fits(self.num as int, other.den as int);
            lemma_i64_prod_fits(other.num as int, self.den as int);
            lemma_i64_prod_fits(self.den as int, other.den as int);
        }
        let p1 = (self.num as i128) * (other.den as i128);
        let p2 = (other.num as i128) * (self.den as i128);
        let den = (self.den as i128) * (other.den as i128);
        proof {
            assert(den > 0) by (nonlinear_arith)
                requires
                    den == (self@.d) * (other@.d),
                    self@.d > 0,
                    other@.d > 0,
            ;
        }
        let n = match p1.checked_sub(p2) {
            Some(v) => v,
            None => {
                return Err(NumError::Overflow);
            },
        };
        reduce(n, den)
    }

    /// Exact product; fails only when the reduced result leaves the
    /// representable range.
    pub fn mul(&self, other: &Ratio) -> (r: Result<Ratio, NumError>)
        ensures
            match r {
                Ok(v) => rat_eqv(v@, rat_mul(self@, other@)) && v@ == rat_canon(
                    rat_mul(self@, other@),
                ),
                Err(e) => e == NumError::Overflow,
            },
            r is Ok <==> rat_mul_fits(self@, other@),
    {
        proof {
            use_type_invariant(self);
            use_type_invariant(other);
            lemma_i64_prod_fits(self.num as int, other.num as int);
            lemma_i64_prod_fits(self.den as int, other.den as int);
        }
        let n = (self.num as i128) * (other.num as i128);
        let den = (self.den as i128) * (other.den as i128);
        proof {
            assert(den > 0) by (nonlinear_arith)
                requires
                    den == (self@.d) * (other@.d),
                    self@.d > 0,
                    other@.d > 0,
            ;
        }
        reduce(n, den)
    }

    /// Exact quotient; the divisor must not be zero (callers test with
    /// [`Ratio::is_zero`] first).
    pub fn div(&self, other: &Ratio) -> (r: Result<Ratio, NumError>)
        requires
            !rat_is_zero(other@),
        ensures
            match r {
                Ok(v) => rat_eqv(v@, rat_div(self@, other@)) && v@ == rat_canon(
                    rat_div(self@, other@),
                ),
                Err(e) => e == NumError::Overflow,
            },
            r is Ok <==> rat_div_fits(self@, other@),
    {
        proof {
            use_type_invariant(self);
            use_type_invariant(other);
            lemma_i64_prod_fits(self.num as int, other.den as int);
            lemma_i64_prod_fits(self.den as int, other.num as int);
        }
        let p = (self.num as i128) * (other.den as i128);
        let q = (self.den as i128) * (other.num as i128);
        proof {
            assert(other@.n > 0 ==> q > 0) by (nonlinear_arith)
                requires
                    q == (self@.d) * (other@.n),
                    self@.d > 0,
            ;
            assert(other@.n < 0 ==> q < 0) by (nonlinear_arith)
                requires
                    q == (self@.d) * (other@.n),
                    self@.d > 0,
            ;
        }
        if q < 0 {
            let rr = reduce(-p, -q);
            proof {
                if let Ok(v) = rr {
                    assert(rat_div(self@, other@) == Rat { n: -p as int, d: -q as int });
                }
            }
            rr
        } else {
            let rr = reduce(p, q);
            proof {
                if let Ok(v) = rr {
                    assert(rat_div(self@, other@) == Rat { n: p as int, d: q as int });
                }
            }
            rr
        }
    }

    /// Exact negation; fails only in the extreme corner where the
    /// negated numerator leaves the representable range.
    pub fn neg(&self) -> (r: Result<Ratio, NumError>)
        ensures
            match r {
                Ok(v) => rat_eqv(v@, rat_neg(self@)) && v@ == rat_canon(rat_neg(self@)),
                Err(e) => e == NumError::Overflow,
            },
            r is Ok <==> rat_neg_fits(self@),
    {
        proof {
            use_type_invariant(self);
        }
        reduce(-(self.num as i128), self.den as i128)
    }

    /// Exact absolute value.
    pub fn abs(&self) -> (r: Result<Ratio, NumError>)
        ensures
            match r {
                Ok(v) => rat_eqv(v@, rat_abs(self@)) && (rat_nonneg(self@) ==> v@ == self@) && (
                !rat_nonneg(self@) ==> v@ == rat_canon(rat_abs(self@))),
                Err(e) => e == NumError::Overflow,
            },
            r is Ok <==> rat_abs_fits(self@),
    {
        proof {
            use_type_invariant(self);
        }
        if self.num >= 0 {
            Ok(*self)
        } else {
            reduce(-(self.num as i128), self.den as i128)
        }
    }

    /// Value comparison `self < other`.
    pub fn lt(&self, other: &Ratio) -> (r: bool)
        ensures
            r == rat_lt(self@, other@),
    {
        proof {
            use_type_invariant(self);
            use_type_invariant(other);
            lemma_i64_prod_fits(self.num as int, other.den as int);
            lemma_i64_prod_fits(other.num as int, self.den as int);
        }
        (self.num as i128) * (other.den as i128) < (other.num as i128) * (self.den as i128)
    }
}

/// Euclid's algorithm, mirroring [`gcd_nat`].
fn gcd_u128(a: u128, b: u128) -> (g: u128)
    ensures
        g as nat == gcd_nat(a as nat, b as nat),
    decreases b,
{
    if b == 0 {
        a
    } else {
        gcd_u128(b, a % b)
    }
}

/// Reduces the fraction `n / d` by its greatest common divisor and
/// packs it into a `Ratio`; reports `Overflow` exactly when the
/// reduced components do not fit `i64`.
fn reduce(n: i128, d: i128) -> (r: Result<Ratio, NumError>)
    requires
        d > 0,
    ensures
        match r {
            Ok(v) => v@ == rat_norm(n as int, d as int) && rat_eqv(
                v@,
                Rat { n: n as int, d: d as int },
            ),
            Err(e) => e == NumError::Overflow,
        },
        r is Ok <==> rat_norm_fits(n as int, d as int),
        i64::MIN <= n <= i64::MAX && d <= i64::MAX ==> r is Ok,
{
    if n == 0 {
        let v = Ratio { num: 0, den: 1 };
        proof {
            assert(rat_norm(n as int, d as int) == Rat { n: 0int, d: 1int });
            assert(v@ == Rat { n: 0int, d: 1int });
            assert(v@.n * (d as int) == 0);
            assert((n as int) * v@.d == 0);
        }
        return Ok(v);
    }
    let un: u128 = if n < 0 {
        (-(n + 1)) as u128 + 1
    } else {
        n as u128
    };
    let ud: u128 = d as u128;
    proof {
        assert(un as nat == abs_int(n as int));
        assert(ud as nat == abs_int(d as int));
        lemma_gcd_divides(un as nat, ud as nat);
    }
    let g = gcd_u128(un, ud);
    let ghost gn = g as nat;
    let ghost kn = choose|k: nat| un as nat == #[trigger] (k * gn);
    let ghost kd = choose|k: nat| ud as nat == #[trigger] (k * gn);
    proof {
        assert(g > 0);
        assert(kd > 0) by (nonlinear_arith)
            requires
                ud as nat == kd * gn,
                ud > 0,
        ;
        assert(kn > 0) by (nonlinear_arith)
            requires
                un as nat == kn * gn,
                un > 0,
        ;
    }
    let rn = un / g;
    let rd = ud / g;
    proof {
        vstd::arithmetic::div_mod::lemma_fundamental_div_mod_converse(
            un as int,
            g as int,
            kn as int,
            0,
        );
        vstd::arithmetic::div_mod::lemma_fundamental_div_mod_converse(
            ud as int,
            g as int,
            kd as int,
            0,
        );
        assert(rn as nat == kn);
        assert(rd as nat == kd);
        // The reduced components never grow: dividing by g >= 1 can
        // only shrink a magnitude.
        assert(kn <= un as nat) by (nonlinear_arith)
            requires
                un as nat == kn * gn,
                gn >= 1,
        ;
        assert(kd <= ud as nat) by (nonlinear_arith)
            requires
                ud as nat == kd * gn,
                gn >= 1,
        ;
        // Relate the spec-level reduced form to rn / rd.
        if n > 0 {
            vstd::arithmetic::div_mod::lemma_fundamental_div_mod_converse(
                n as int,
                g as int,
                kn as int,
                0,
            );
            assert(rat_norm(n as int, d as int) == Rat { n: kn as int, d: kd as int });
        } else {
            assert(n as int == (-(kn as int)) * (g as int) + 0) by (nonlinear_arith)
                requires
                    abs_int(n as int) == kn * gn,
                    n < 0,
                    g as nat == gn,
            ;
            vstd::arithmetic::div_mod::lemma_fundamental_div_mod_converse(
                n as int,
                g as int,
                -(kn as int),
                0,
            );
            assert(rat_norm(n as int, d as int) == Rat { n: -(kn as int), d: kd as int });
        }
    }
    if rd > i64::MAX as u128 {
        return Err(NumError::Overflow);
    }
    if n > 0 {
        if rn > i64::MAX as u128 {
            return Err(NumError::Overflow);
        }
        let v = Ratio { num: rn as i64, den: rd as i64 };
        proof {
            assert(v@.n * (d as int) == (n as int) * v@.d) by (nonlinear_arith)
                requires
                    v@.n == kn as int,
                    v@.d == kd as int,
                    n as int == kn * gn,
                    d as int == kd * gn,
            ;
        }
        Ok(v)
    } else {
        if rn > 0x8000_0000_0000_0000u128 {
            return Err(NumError::Overflow);
        }
        let num: i64 = if rn == 0x8000_0000_0000_0000u128 {
            i64::MIN
        } else {
            -(rn as i64)
        };
        let v = Ratio { num, den: rd as i64 };
        proof {
            assert(v@.n * (d as int) == (n as int) * v@.d) by (nonlinear_arith)
                requires
                    v@.n == -(kn as int),
                    v@.d == kd as int,
                    n as int == -((kn * gn) as int),
                    d as int == kd * gn,
            ;
        }
        Ok(v)
    }
}

} // verus!
