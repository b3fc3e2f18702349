//! Polynomials and rational functions with exact coefficients.
//!
//! The iterative algorithms of this library are parameterized by
//! caller-supplied scalar functions. A caller states such a function
//! as data: a [`Poly`] (coefficients in ascending powers) or a
//! [`RatFn`] (a quotient of two polynomials). Their evaluation is
//! pinned exactly to the spec-level Horner recursion
//! [`poly_eval_spec`].

use vstd::prelude::*;

use crate::error::NumError;
use crate::rat::{
    lemma_add_congr, lemma_cmp_congr, lemma_div_congr, lemma_mul_congr, lemma_ops_wf, rat_add,
    rat_div, rat_eqv, rat_is_zero, rat_mul, rat_of_int, rat_wf, rat_zero, rats_wf, Rat, Ratio,
};

verus! {

/// Horner evaluation of a coefficient sequence (ascending powers) at
/// `x`: an empty polynomial is zero, otherwise
/// `c0 + x * eval(rest, x)`.
pub open spec fn poly_eval_spec(cs: Seq<Rat>, x: Rat) -> Rat
    decreases cs.len(),
{
    if cs.len() == 0 {
        rat_zero()
    } else {
        rat_add(cs[0], rat_mul(x, poly_eval_spec(cs.subrange(1, cs.len() as int), x)))
    }
}

/// Evaluating a well-formed polynomial at a well-formed point gives a
/// well-formed value.
pub proof fn lemma_poly_eval_wf(cs: Seq<Rat>, x: Rat)
    requires
        rats_wf(cs),
        rat_wf(x),
    ensures
        rat_wf(poly_eval_spec(cs, x)),
    decreases cs.len(),
{
    if cs.len() == 0 {
    } else {
        let rest = cs.subrange(1, cs.len() as int);
        assert(rats_wf(rest));
        lemma_poly_eval_wf(rest, x);
        lemma_ops_wf(x, poly_eval_spec(rest, x));
        lemma_ops_wf(cs[0], rat_mul(x, poly_eval_spec(rest, x)));
    }
}

/// Polynomial evaluation respects value equivalence of the argument.
pub proof fn lemma_poly_eval_congr(cs: Seq<Rat>, x: Rat, x2: Rat)
    requires
        rats_wf(cs),
        rat_wf(x),
        rat_wf(x2),
        rat_eqv(x, x2),
    ensures
        rat_eqv(poly_eval_spec(cs, x), poly_eval_spec(cs, x2)),
    decreases cs.len(),
{
    if cs.len() == 0 {
    } else {
        let rest = cs.subrange(1, cs.len() as int);
        assert(rats_wf(rest));
        lemma_poly_eval_congr(rest, x, x2);
        lemma_poly_eval_wf(rest, x);
        lemma_poly_eval_wf(rest, x2);
        lemma_mul_congr(x, x2, poly_eval_spec(rest, x), poly_eval_spec(rest, x2));
        lemma_ops_wf(x, poly_eval_spec(rest, x));
        lemma_ops_wf(x2, poly_eval_spec(rest, x2));
        lemma_add_congr(
            cs[0],
            cs[0],
            rat_mul(x, poly_eval_spec(rest, x)),
            rat_mul(x2, poly_eval_spec(rest, x2)),
        );
    }
}

/// A polynomial with exact rational coefficients, stored in ascending
/// powers: `coeffs[i]` multiplies `x^i`.
#[derive(Debug)]
pub struct Poly {
    coeffs: Vec<Ratio>,
}

impl View for Poly {
    type V = Seq<Rat>;

    closed spec fn view(&self) -> Seq<Rat> {
        self.coeffs@.map_values(|c: Ratio| c@)
    }
}

impl Poly {
    /// All stored coefficients satisfy the rational invariant.
    #[verifier::type_invariant]
    pub closed spec fn inv(self) -> bool {
        forall|i: int|
            0 <= i < self.coeffs@.len() ==> (#[trigger] self.coeffs@[i]).inv()
    }

    /// The coefficient sequence of a polynomial is well-formed.
    pub proof fn lemma_wf(p: Poly)
        requires
            p.inv(),
        ensures
            rats_wf(p@),
    {
        assert forall|i: int| 0 <= i < p@.len() implies rat_wf(#[trigger] p@[i]) by {
            Ratio::lemma_inv_wf(p.coeffs@[i]);
        }
    }

    /// Builds a polynomial from a coefficient vector.
    pub fn from_ratios(cs: Vec<Ratio>) -> (p: Poly)
        ensures
            p@ == cs@.map_values(|c: Ratio| c@),
    {
        let mut out: Vec<Ratio> = Vec::new();
        let mut i: usize = 0;
        while i < cs.len()
            invariant
                i <= cs@.len(),
                out@.len() == i as int,
                forall|j: int| 0 <= j < i as int ==> out@[j] == cs@[j],
                forall|j: int| 0 <= j < i as int ==> (#[trigger] out@[j]).inv(),
            decreases cs@.len() - i as int,
        {
            let c = cs[i];
            proof {
                use_type_invariant(&c);
            }
            out.push(c);
            i += 1;
        }
        let p = Poly { coeffs: out };
        proof {
            assert(p@ =~= cs@.map_values(|c: Ratio| c@));
        }
        p
    }

    /// Builds a polynomial with integer coefficients.
    pub fn from_ints(cs: Vec<i64>) -> (p: Poly)
        ensures
            p@.len() == cs@.len(),
            forall|i: int| 0 <= i < cs@.len() ==> p@[i] == rat_of_int(cs@[i] as int),
    {
        let mut out: Vec<Ratio> = Vec::new();
        let mut i: usize = 0;
        while i < cs.len()
            invariant
                i <= cs@.len(),
                out@.len() == i as int,
                forall|j: int| 0 <= j < i as int ==> (#[trigger] out@[j])@ == rat_of_int(
                    cs@[j] as int,
                ),
                forall|j: int| 0 <= j < i as int ==> (#[trigger] out@[j]).inv(),
            decreases cs@.len() - i as int,
        {
            let c = Ratio::from_int(cs[i]);
            proof {
                use_type_invariant(&c);
            }
            out.push(c);
            i += 1;
        }
        Poly { coeffs: out }
    }

    /// The number of stored coefficients.
    pub fn len(&self) -> (n: usize)
        ensures
            n as int == self@.len(),
    {
        self.coeffs.len()
    }

    /// Evaluates the polynomial at `x` by Horner's scheme; the result
    /// is exactly the value of [`poly_eval_spec`].
    pub fn eval(&self, x: &Ratio) -> (r: Result<Ratio, NumError>)
        ensures
            match r {
                Ok(v) => rat_eqv(v@, poly_eval_spec(self@, x@)),
                Err(e) => e == NumError::Overflow,
            },
    {
        proof {
            use_type_invariant(self);
            Poly::lemma_wf(*self);
            use_type_invariant(x);
            Ratio::lemma_inv_wf(*x);
        }
        let ghost cs = self@;
        let mut acc = Ratio::from_int(0);
        let mut i: usize = self.coeffs.len();
        proof {
            assert(cs.subrange(i as int, cs.len() as int) =~= Seq::<Rat>::empty());
        }
        while i > 0
            invariant
                i <= cs.len(),
                cs == self@,
                self.inv(),
                rats_wf(cs),
                rat_wf(x@),
                rat_eqv(acc@, poly_eval_spec(cs.subrange(i as int, cs.len() as int), x@)),
            decreases i,
        {
            i = i - 1;
            let ghost acc_old = acc@;
            let ghost tail = cs.subrange(i as int + 1, cs.len() as int);
            let ghost here = cs.subrange(i as int, cs.len() as int);
            let t = match x.mul(&acc) {
                Ok(v) => v,
                Err(e) => {
                    return Err(e);
                },
            };
            let c = self.coeffs[i];
            proof {
                use_type_invariant(&c);
            }
            let next = match c.add(&t) {
                Ok(v) => v,
                Err(e) => {
                    return Err(e);
                },
            };
            proof {
                use_type_invariant(&acc);
                Ratio::lemma_inv_wf(acc);
                use_type_invariant(&t);
                Ratio::lemma_inv_wf(t);
                use_type_invariant(&next);
                Ratio::lemma_inv_wf(next);
                lemma_poly_eval_wf(tail, x@);
                // t ~ x * eval(tail)
                lemma_mul_congr(x@, x@, acc_old, poly_eval_spec(tail, x@));
                lemma_ops_wf(x@, acc_old);
                lemma_ops_wf(x@, poly_eval_spec(tail, x@));
                crate::rat::lemma_eqv_trans(t@, rat_mul(x@, acc_old), rat_mul(
                    x@,
                    poly_eval_spec(tail, x@),
                ));
                // next ~ c + x * eval(tail) == eval(here)
                lemma_add_congr(cs[i as int], cs[i as int], t@, rat_mul(
                    x@,
                    poly_eval_spec(tail, x@),
                ));
                lemma_ops_wf(cs[i as int], t@);
                lemma_ops_wf(cs[i as int], rat_mul(x@, poly_eval_spec(tail, x@)));
                crate::rat::lemma_eqv_trans(next@, rat_add(cs[i as int], t@), rat_add(
                    cs[i as int],
                    rat_mul(x@, poly_eval_spec(tail, x@)),
                ));
                assert(here.len() > 0);
                assert(here[0] == cs[i as int]);
                assert(here.subrange(1, here.len() as int) =~= tail);
                assert(poly_eval_spec(here, x@) == rat_add(
                    cs[i as int],
                    rat_mul(x@, poly_eval_spec(tail, x@)),
                ));
            }
            acc = next;
        }
        proof {
            assert(cs.subrange(0, cs.len() as int) =~= cs);
        }
        Ok(acc)
    }
}

/// The spec-level model of a rational function: numerator and
/// denominator coefficient sequences.
pub ghost struct RatFnV {
    pub num: Seq<Rat>,
    pub den: Seq<Rat>,
}

/// The model is well-formed.
pub open spec fn ratfn_wf(f: RatFnV) -> bool {
    rats_wf(f.num) && rats_wf(f.den)
}

/// The rational function has a nonzero denominator at `x`.
pub open spec fn ratfn_defined(f: RatFnV, x: Rat) -> bool {
    !rat_is_zero(poly_eval_spec(f.den, x))
}

/// The exact value of the rational function at `x`.
pub open spec fn ratfn_at(f: RatFnV, x: Rat) -> Rat {
    rat_div(poly_eval_spec(f.num, x), poly_eval_spec(f.den, x))
}

/// Where defined, the value of a well-formed rational function is
/// well-formed.
pub proof fn lemma_ratfn_at_wf(f: RatFnV, x: Rat)
    requires
        ratfn_wf(f),
        rat_wf(x),
        ratfn_defined(f, x),
    ensures
        rat_wf(ratfn_at(f, x)),
{
    lemma_poly_eval_wf(f.num, x);
    lemma_poly_eval_wf(f.den, x);
    lemma_ops_wf(poly_eval_spec(f.num, x), poly_eval_spec(f.den, x));
}

/// Rational-function evaluation respects value equivalence of the
/// argument.
/// Whether the rational function is defined depends only on the
/// argument's value, not on its representation.
pub proof fn lemma_ratfn_defined_iff(f: RatFnV, x: Rat, x2: Rat)
    requires
        ratfn_wf(f),
        rat_wf(x),
        rat_wf(x2),
        rat_eqv(x, x2),
    ensures
        ratfn_defined(f, x) == ratfn_defined(f, x2),
{
    lemma_poly_eval_wf(f.den, x);
    lemma_poly_eval_wf(f.den, x2);
    lemma_poly_eval_congr(f.den, x, x2);
    lemma_cmp_congr(
        poly_eval_spec(f.den, x),
        poly_eval_spec(f.den, x2),
        poly_eval_spec(f.den, x),
        poly_eval_spec(f.den, x2),
    );
}

pub proof fn lemma_ratfn_congr(f: RatFnV, x: Rat, x2: Rat)
    requires
        ratfn_wf(f),
        rat_wf(x),
        rat_wf(x2),
        rat_eqv(x, x2),
        ratfn_defined(f, x),
    ensures
        ratfn_defined(f, x2),
        rat_eqv(ratfn_at(f, x), ratfn_at(f, x2)),
{
    lemma_poly_eval_wf(f.num, x);
    lemma_poly_eval_wf(f.den, x);
    lemma_poly_eval_wf(f.num, x2);
    lemma_poly_eval_wf(f.den, x2);
    lemma_poly_eval_congr(f.num, x, x2);
    lemma_poly_eval_congr(f.den, x, x2);
    lemma_div_congr(
        poly_eval_spec(f.num, x),
        poly_eval_spec(f.num, x2),
        poly_eval_spec(f.den, x),
        poly_eval_spec(f.den, x2),
    );
}

/// A rational function: a quotient of two polynomials. This is the
/// form in which callers hand a scalar function to the algorithms.
#[derive(Debug)]
pub struct RatFn {
    num: Poly,
    den: Poly,
}

impl View for RatFn {
    type V = RatFnV;

    closed spec fn view(&self) -> RatFnV {
        RatFnV { num: self.num@, den: self.den@ }
    }
}

impl RatFn {
    /// Both component polynomials satisfy their invariants.
    #[verifier::type_invariant]
    pub closed spec fn inv(self) -> bool {
        self.num.inv() && self.den.inv()
    }

    /// Builds the quotient `num / den` of two polynomials.
    pub fn new(num: Poly, den: Poly) -> (f: RatFn)
        ensures
            f@.num == num@,
            f@.den == den@,
    {
        proof {
            use_type_invariant(&num);
            use_type_invariant(&den);
        }
        RatFn { num, den }
    }

    /// Wraps a polynomial as a rational function with denominator one.
    pub fn from_poly(num: Poly) -> (f: RatFn)
        ensures
            f@.num == num@,
            f@.den == seq![rat_of_int(1)],
    {
        let mut one: Vec<i64> = Vec::new();
        one.push(1);
        let den = Poly::from_ints(one);
        proof {
            assert(den@ =~= seq![rat_of_int(1)]);
            use_type_invariant(&num);
            use_type_invariant(&den);
        }
        RatFn { num, den }
    }

    /// The model of this function is well-formed.
    pub proof fn lemma_fn_wf(f: RatFn)
        requires
            f.inv(),
        ensures
            ratfn_wf(f@),
    {
        Poly::lemma_wf(f.num);
        Poly::lemma_wf(f.den);
    }

    /// Evaluates the function at `x`; a zero denominator value is a
    /// [`NumError::DomainError`].
    pub fn eval(&self, x: &Ratio) -> (r: Result<Ratio, NumError>)
        ensures
            match r {
                Ok(v) => ratfn_defined(self@, x@) && rat_eqv(v@, ratfn_at(self@, x@)),
                Err(e) => e == NumError::Overflow || (e == NumError::DomainError
                    && !ratfn_defined(self@, x@)),
            },
    {
        proof {
            use_type_invariant(self);
            RatFn::lemma_fn_wf(*self);
            use_type_invariant(x);
            Ratio::lemma_inv_wf(*x);
        }
        let dv = match self.den.eval(x) {
            Ok(v) => v,
            Err(e) => {
                return Err(e);
            },
        };
        proof {
            use_type_invariant(&dv);
            Ratio::lemma_inv_wf(dv);
            lemma_poly_eval_wf(self@.den, x@);
            lemma_cmp_congr(dv@, poly_eval_spec(self@.den, x@), dv@, poly_eval_spec(
                self@.den,
                x@,
            ));
        }
        if dv.is_zero() {
            return Err(NumError::DomainError);
        }
        let nv = match self.num.eval(x) {
            Ok(v) => v,
            Err(e) => {
                return Err(e);
            },
        };
        let r = match nv.div(&dv) {
            Ok(v) => v,
            Err(e) => {
                return Err(e);
            },
        };
        proof {
            use_type_invariant(&nv);
            Ratio::lemma_inv_wf(nv);
            use_type_invariant(&r);
            Ratio::lemma_inv_wf(r);
            lemma_poly_eval_wf(self@.num, x@);
            lemma_div_congr(nv@, poly_eval_spec(self@.num, x@), dv@, poly_eval_spec(
                self@.den,
                x@,
            ));
            lemma_ops_wf(nv@, dv@);
            crate::rat::lemma_ops_wf(
                poly_eval_spec(self@.num, x@),
                poly_eval_spec(self@.den, x@),
            );
            crate::rat::lemma_eqv_trans(r@, rat_div(nv@, dv@), ratfn_at(self@, x@));
        }
        Ok(r)
    }
}

/// Horner evaluation of a bivariate polynomial, stored as rows of
/// coefficient sequences: row `i` is the polynomial in `y` that
/// multiplies `x^i`.
pub open spec fn poly2_eval_spec(rows: Seq<Seq<Rat>>, x: Rat, y: Rat) -> Rat
    decreases rows.len(),
{
    if rows.len() == 0 {
        rat_zero()
    } else {
        rat_add(
            poly_eval_spec(rows[0], y),
            rat_mul(x, poly2_eval_spec(rows.subrange(1, rows.len() as int), x, y)),
        )
    }
}

/// Every row of the bivariate coefficient table is well-formed.
pub open spec fn rows_wf(rows: Seq<Seq<Rat>>) -> bool {
    forall|i: int| 0 <= i < rows.len() ==> rats_wf(#[trigger] rows[i])
}

/// Evaluating a well-formed bivariate polynomial gives a well-formed
/// value.
pub proof fn lemma_poly2_eval_wf(rows: Seq<Seq<Rat>>, x: Rat, y: Rat)
    requires
        rows_wf(rows),
        rat_wf(x),
        rat_wf(y),
    ensures
        rat_wf(poly2_eval_spec(rows, x, y)),
    decreases rows.len(),
{
    if rows.len() == 0 {
    } else {
        let rest = rows.subrange(1, rows.len() as int);
        assert(rows_wf(rest));
        lemma_poly2_eval_wf(rest, x, y);
        lemma_poly_eval_wf(rows[0], y);
        lemma_ops_wf(x, poly2_eval_spec(rest, x, y));
        lemma_ops_wf(poly_eval_spec(rows[0], y), rat_mul(x, poly2_eval_spec(rest, x, y)));
    }
}

/// Bivariate evaluation respects value equivalence in both arguments.
pub proof fn lemma_poly2_eval_congr(rows: Seq<Seq<Rat>>, x: Rat, x2: Rat, y: Rat, y2: Rat)
    requires
        rows_wf(rows),
        rat_wf(x),
        rat_wf(x2),
        rat_wf(y),
        rat_wf(y2),
        rat_eqv(x, x2),
        rat_eqv(y, y2),
    ensures
        rat_eqv(poly2_eval_spec(rows, x, y), poly2_eval_spec(rows, x2, y2)),
    decreases rows.len(),
{
    if rows.len() == 0 {
    } else {
        let rest = rows.subrange(1, rows.len() as int);
        assert(rows_wf(rest));
        lemma_poly2_eval_congr(rest, x, x2, y, y2);
        lemma_poly2_eval_wf(rest, x, y);
        lemma_poly2_eval_wf(rest, x2, y2);
        lemma_poly_eval_congr(rows[0], y, y2);
        lemma_poly_eval_wf(rows[0], y);
        lemma_poly_eval_wf(rows[0], y2);
        lemma_mul_congr(x, x2, poly2_eval_spec(rest, x, y), poly2_eval_spec(rest, x2, y2));
        lemma_ops_wf(x, poly2_eval_spec(rest, x, y));
        lemma_ops_wf(x2, poly2_eval_spec(rest, x2, y2));
        lemma_add_congr(
            poly_eval_spec(rows[0], y),
            poly_eval_spec(rows[0], y2),
            rat_mul(x, poly2_eval_spec(rest, x, y)),
            rat_mul(x2, poly2_eval_spec(rest, x2, y2)),
        );
    }
}

/// A polynomial in two variables with exact rational coefficients:
/// row `i` holds the coefficients (ascending powers of `y`) that
/// multiply `x^i`.
#[derive(Debug)]
pub struct Poly2 {
    rows: Vec<Poly>,
}

impl View for Poly2 {
    type V = Seq<Seq<Rat>>;

    closed spec fn view(&self) -> Seq<Seq<Rat>> {
        self.rows@.map_values(|p: Poly| p@)
    }
}

impl Poly2 {
    /// All rows satisfy the polynomial invariant.
    #[verifier::type_invariant]
    pub closed spec fn inv(self) -> bool {
        forall|i: int| 0 <= i < self.rows@.len() ==> (#[trigger] self.rows@[i]).inv()
    }

    /// The coefficient table of a bivariate polynomial is well-formed.
    pub proof fn lemma_wf(p: Poly2)
        requires
            p.inv(),
        ensures
            rows_wf(p@),
    {
        assert forall|i: int| 0 <= i < p@.len() implies rats_wf(#[trigger] p@[i]) by {
            Poly::lemma_wf(p.rows@[i]);
        }
    }

    /// Builds a bivariate polynomial from its rows.
    pub fn from_rows(rows: Vec<Poly>) -> (p: Poly2)
        ensures
            p@ == rows@.map_values(|q: Poly| q@),
    {
        let ghost orig = rows@;
        let mut rest = rows;
        let mut out: Vec<Poly> = Vec::new();
        while rest.len() > 0
            invariant
                out@.len() + rest@.len() == orig.len(),
                forall|j: int| 0 <= j < out@.len() ==> out@[j] == orig[j],
                forall|j: int| 0 <= j < out@.len() ==> (#[trigger] out@[j]).inv(),
                rest@ =~= orig.subrange(out@.len() as int, orig.len() as int),
            decreases rest@.len(),
        {
            let q = rest.remove(0);
            proof {
                use_type_invariant(&q);
                assert(q == orig[out@.len() as int]);
            }
            out.push(q);
        }
        let p = Poly2 { rows: out };
        proof {
            assert(p@ =~= orig.map_values(|q: Poly| q@));
        }
        p
    }

    /// Evaluates the polynomial at `(x, y)` by Horner's scheme in
    /// `x`, with each row evaluated at `y`.
    pub fn eval(&self, x: &Ratio, y: &Ratio) -> (r: Result<Ratio, NumError>)
        ensures
            match r {
                Ok(v) => rat_eqv(v@, poly2_eval_spec(self@, x@, y@)),
                Err(e) => e == NumError::Overflow,
            },
    {
        proof {
            use_type_invariant(self);
            Poly2::lemma_wf(*self);
            use_type_invariant(x);
            Ratio::lemma_inv_wf(*x);
            use_type_invariant(y);
            Ratio::lemma_inv_wf(*y);
        }
        let ghost rows = self@;
        let mut acc = Ratio::from_int(0);
        let mut i: usize = self.rows.len();
        proof {
            assert(rows.subrange(i as int, rows.len() as int) =~= Seq::<Seq<Rat>>::empty());
        }
        while i > 0
            invariant
                i <= rows.len(),
                rows == self@,
                self.inv(),
                rows_wf(rows),
                rat_wf(x@),
                rat_wf(y@),
                rat_eqv(acc@, poly2_eval_spec(rows.subrange(i as int, rows.len() as int), x@, y@)),
            decreases i,
        {
            i = i - 1;
            let ghost acc_old = acc@;
            let ghost tail = rows.subrange(i as int + 1, rows.len() as int);
            let ghost here = rows.subrange(i as int, rows.len() as int);
            let t = match x.mul(&acc) {
                Ok(v) => v,
                Err(e) => {
                    return Err(e);
                },
            };
            let rv = match self.rows[i].eval(y) {
                Ok(v) => v,
                Err(e) => {
                    return Err(e);
                },
            };
            let next = match rv.add(&t) {
                Ok(v) => v,
                Err(e) => {
                    return Err(e);
                },
            };
            proof {
                use_type_invariant(&acc);
                Ratio::lemma_inv_wf(acc);
                use_type_invariant(&t);
                Ratio::lemma_inv_wf(t);
                use_type_invariant(&rv);
                Ratio::lemma_inv_wf(rv);
                use_type_invariant(&next);
                Ratio::lemma_inv_wf(next);
                assert(rows_wf(tail));
                lemma_poly2_eval_wf(tail, x@, y@);
                lemma_mul_congr(x@, x@, acc_old, poly2_eval_spec(tail, x@, y@));
                lemma_ops_wf(x@, acc_old);
                lemma_ops_wf(x@, poly2_eval_spec(tail, x@, y@));
                crate::rat::lemma_eqv_trans(t@, rat_mul(x@, acc_old), rat_mul(
                    x@,
                    poly2_eval_spec(tail, x@, y@),
                ));
                assert(rows[i as int] == self.rows@[i as int]@);
                assert(rat_eqv(rv@, poly_eval_spec(rows[i as int], y@)));
                lemma_poly_eval_wf(rows[i as int], y@);
                lemma_add_congr(rv@, rv@, t@, rat_mul(x@, poly2_eval_spec(tail, x@, y@)));
                lemma_ops_wf(rv@, t@);
                lemma_ops_wf(rv@, rat_mul(x@, poly2_eval_spec(tail, x@, y@)));
                crate::rat::lemma_eqv_trans(next@, rat_add(rv@, t@), rat_add(
                    rv@,
                    rat_mul(x@, poly2_eval_spec(tail, x@, y@)),
                ));
                lemma_add_congr(
                    rv@,
                    poly_eval_spec(rows[i as int], y@),
                    rat_mul(x@, poly2_eval_spec(tail, x@, y@)),
                    rat_mul(x@, poly2_eval_spec(tail, x@, y@)),
                );
                lemma_ops_wf(poly_eval_spec(rows[i as int], y@), rat_mul(
                    x@,
                    poly2_eval_spec(tail, x@, y@),
                ));
                crate::rat::lemma_eqv_trans(
                    next@,
                    rat_add(rv@, rat_mul(x@, poly2_eval_spec(tail, x@, y@))),
                    rat_add(
                        poly_eval_spec(rows[i as int], y@),
                        rat_mul(x@, poly2_eval_spec(tail, x@, y@)),
                    ),
                );
                assert(here[0] == rows[i as int]);
                assert(here.subrange(1, here.len() as int) =~= tail);
                assert(poly2_eval_spec(here, x@, y@) == rat_add(
                    poly_eval_spec(rows[i as int], y@),
                    rat_mul(x@, poly2_eval_spec(tail, x@, y@)),
                ));
            }
            acc = next;
        }
        proof {
            assert(rows.subrange(0, rows.len() as int) =~= rows);
        }
        Ok(acc)
    }
}

/// The spec-level model of a bivariate rational function.
pub ghost struct RatFn2V {
    pub num: Seq<Seq<Rat>>,
    pub den: Seq<Seq<Rat>>,
}

/// The model is well-formed.
pub open spec fn ratfn2_wf(f: RatFn2V) -> bool {
    rows_wf(f.num) && rows_wf(f.den)
}

/// The function has a nonzero denominator at `(x, y)`.
pub open spec fn ratfn2_defined(f: RatFn2V, x: Rat, y: Rat) -> bool {
    !rat_is_zero(poly2_eval_spec(f.den, x, y))
}

/// The exact value of the function at `(x, y)`.
pub open spec fn ratfn2_at(f: RatFn2V, x: Rat, y: Rat) -> Rat {
    rat_div(poly2_eval_spec(f.num, x, y), poly2_eval_spec(f.den, x, y))
}

/// Where defined, the value of a well-formed bivariate rational
/// function is well-formed.
pub proof fn lemma_ratfn2_at_wf(f: RatFn2V, x: Rat, y: Rat)
    requires
        ratfn2_wf(f),
        rat_wf(x),
        rat_wf(y),
        ratfn2_defined(f, x, y),
    ensures
        rat_wf(ratfn2_at(f, x, y)),
{
    lemma_poly2_eval_wf(f.num, x, y);
    lemma_poly2_eval_wf(f.den, x, y);
    lemma_ops_wf(poly2_eval_spec(f.num, x, y), poly2_eval_spec(f.den, x, y));
}

/// Bivariate rational-function evaluation respects value equivalence
/// in both arguments.
/// Whether the bivariate rational function is defined depends only
/// on the arguments' values, not on their representations.
pub proof fn lemma_ratfn2_defined_iff(f: RatFn2V, x: Rat, x2: Rat, y: Rat, y2: Rat)
    requires
        ratfn2_wf(f),
        rat_wf(x),
        rat_wf(x2),
        rat_wf(y),
        rat_wf(y2),
        rat_eqv(x, x2),
        rat_eqv(y, y2),
    ensures
        ratfn2_defined(f, x, y) == ratfn2_defined(f, x2, y2),
{
    lemma_poly2_eval_wf(f.den, x, y);
    lemma_poly2_eval_wf(f.den, x2, y2);
    lemma_poly2_eval_congr(f.den, x, x2, y, y2);
    lemma_cmp_congr(
        poly2_eval_spec(f.den, x, y),
        poly2_eval_spec(f.den, x2, y2),
        poly2_eval_spec(f.den, x, y),
        poly2_eval_spec(f.den, x2, y2),
    );
}

pub proof fn lemma_ratfn2_congr(f: RatFn2V, x: Rat, x2: Rat, y: Rat, y2: Rat)
    requires
        ratfn2_wf(f),
        rat_wf(x),
        rat_wf(x2),
        rat_wf(y),
        rat_wf(y2),
        rat_eqv(x, x2),
        rat_eqv(y, y2),
        ratfn2_defined(f, x, y),
    ensures
        ratfn2_defined(f, x2, y2),
        rat_eqv(ratfn2_at(f, x, y), ratfn2_at(f, x2, y2)),
{
    lemma_poly2_eval_wf(f.num, x, y);
    lemma_poly2_eval_wf(f.den, x, y);
    lemma_poly2_eval_wf(f.num, x2, y2);
    lemma_poly2_eval_wf(f.den, x2, y2);
    lemma_poly2_eval_congr(f.num, x, x2, y, y2);
    lemma_poly2_eval_congr(f.den, x, x2, y, y2);
    lemma_div_congr(
        poly2_eval_spec(f.num, x, y),
        poly2_eval_spec(f.num, x2, y2),
        poly2_eval_spec(f.den, x, y),
        poly2_eval_spec(f.den, x2, y2),
    );
}

/// A bivariate rational function: a quotient of two bivariate
/// polynomials. This is the form in which callers hand an ODE's
/// right-hand side `f(x, y)` to the integrators.
#[derive(Debug)]
pub struct RatFn2 {
    num: Poly2,
    den: Poly2,
}

impl View for RatFn2 {
    type V = RatFn2V;

    closed spec fn view(&self) -> RatFn2V {
        RatFn2V { num: self.num@, den: self.den@ }
    }
}

impl RatFn2 {
    /// Both component polynomials satisfy their invariants.
    #[verifier::type_invariant]
    pub closed spec fn inv(self) -> bool {
        self.num.inv() && self.den.inv()
    }

    /// Builds the quotient `num / den` of two bivariate polynomials.
    pub fn new(num: Poly2, den: Poly2) -> (f: RatFn2)
        ensures
            f@.num == num@,
            f@.den == den@,
    {
        proof {
            use_type_invariant(&num);
            use_type_invariant(&den);
        }
        RatFn2 { num, den }
    }

    /// Wraps a bivariate polynomial as a rational function with
    /// denominator one.
    pub fn from_poly(num: Poly2) -> (f: RatFn2)
        ensures
            f@.num == num@,
            f@.den == seq![seq![rat_of_int(1)]],
    {
        let mut one: Vec<i64> = Vec::new();
        one.push(1);
        let mut rows: Vec<Poly> = Vec::new();
        rows.push(Poly::from_ints(one));
        let den = Poly2::from_rows(rows);
        proof {
            assert(den@[0] =~= seq![rat_of_int(1)]);
            assert(den@ =~= seq![seq![rat_of_int(1)]]);
            use_type_invariant(&num);
            use_type_invariant(&den);
        }
        RatFn2 { num, den }
    }

    /// The model of this function is well-formed.
    pub proof fn lemma_fn_wf(f: RatFn2)
        requires
            f.inv(),
        ensures
            ratfn2_wf(f@),
    {
        Poly2::lemma_wf(f.num);
        Poly2::lemma_wf(f.den);
    }

    /// Evaluates the function at `(x, y)`; a zero denominator value
    /// is a [`NumError::DomainError`].
    pub fn eval(&self, x: &Ratio, y: &Ratio) -> (r: Result<Ratio, NumError>)
        ensures
            match r {
                Ok(v) => ratfn2_defined(self@, x@, y@) && rat_eqv(v@, ratfn2_at(self@, x@, y@)),
                Err(e) => e == NumError::Overflow || (e == NumError::DomainError
                    && !ratfn2_defined(self@, x@, y@)),
            },
    {
        proof {
            use_type_invariant(self);
            RatFn2::lemma_fn_wf(*self);
            use_type_invariant(x);
            Ratio::lemma_inv_wf(*x);
            use_type_invariant(y);
            Ratio::lemma_inv_wf(*y);
        }
        let dv = match self.den.eval(x, y) {
            Ok(v) => v,
            Err(e) => {
                return Err(e);
            },
        };
        proof {
            use_type_invariant(&dv);
            Ratio::lemma_inv_wf(dv);
            lemma_poly2_eval_wf(self@.den, x@, y@);
            lemma_cmp_congr(dv@, poly2_eval_spec(self@.den, x@, y@), dv@, poly2_eval_spec(
                self@.den,
                x@,
                y@,
            ));
        }
        if dv.is_zero() {
            return Err(NumError::DomainError);
        }
        let nv = match self.num.eval(x, y) {
            Ok(v) => v,
            Err(e) => {
                return Err(e);
            },
        };
        let r = match nv.div(&dv) {
            Ok(v) => v,
            Err(e) => {
                return Err(e);
            },
        };
        proof {
            use_type_invariant(&nv);
            Ratio::lemma_inv_wf(nv);
            use_type_invariant(&r);
            Ratio::lemma_inv_wf(r);
            lemma_poly2_eval_wf(self@.num, x@, y@);
            lemma_div_congr(nv@, poly2_eval_spec(self@.num, x@, y@), dv@, poly2_eval_spec(
                self@.den,
                x@,
                y@,
            ));
            lemma_ops_wf(nv@, dv@);
            crate::rat::lemma_ops_wf(
                poly2_eval_spec(self@.num, x@, y@),
                poly2_eval_spec(self@.den, x@, y@),
            );
            crate::rat::lemma_eqv_trans(r@, rat_div(nv@, dv@), ratfn2_at(self@, x@, y@));
        }
        Ok(r)
    }
}

} // verus!
