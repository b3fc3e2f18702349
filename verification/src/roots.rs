//! Root finding.
//!
//! Three classical methods for locating a root of a caller-supplied
//! scalar function: fixed-point (simple) iteration, bisection of a
//! sign-changing bracket, and the secant (two-point divided
//! difference) iteration. Each method's iterates are pinned exactly
//! to a spec-level recursion, every step is recorded, and every
//! failure is reported explicitly.

use vstd::prelude::*;

use crate::error::NumError;
use crate::points::{point_eqv, point_wf, Point, PointV};
use crate::poly::{
    lemma_ratfn_at_wf, lemma_ratfn_congr, lemma_ratfn_defined_iff, ratfn_at, ratfn_defined,
    ratfn_wf, RatFn, RatFnV,
};
use crate::rat::{
    lemma_abs_congr, lemma_add_congr, lemma_cmp_congr, lemma_div_congr, lemma_eqv_trans,
    lemma_mul_congr, lemma_ops_wf, lemma_sub_congr, rat_abs, rat_add, rat_div, rat_eqv,
    rat_is_zero, rat_lt, rat_mul, rat_nonneg, rat_of_int, rat_sub, rat_wf, Rat, Ratio,
};

verus! {

// ---------------------------------------------------------------
// Fixed-point (simple) iteration
// ---------------------------------------------------------------
/// The fixed-point iterate: `x_0` is the starting point and
/// `x_{k+1} = phi(x_k)`.
pub open spec fn fp_iter(phi: RatFnV, x0: Rat, k: nat) -> Rat
    decreases k,
{
    if k == 0 {
        x0
    } else {
        ratfn_at(phi, fp_iter(phi, x0, (k - 1) as nat))
    }
}

/// The tightened tolerance of the fixed-point iteration: one tenth of
/// the nominal epsilon, a stated design choice of the method.
pub open spec fn corrected_eps(eps: Rat) -> Rat {
    rat_div(eps, rat_of_int(10))
}

/// The stopping rule of the fixed-point iteration holds after step
/// `k >= 1`: the last movement was smaller than the tightened
/// tolerance.
pub open spec fn fp_small_step(phi: RatFnV, x0: Rat, eps: Rat, k: nat) -> bool {
    rat_lt(
        rat_abs(rat_sub(fp_iter(phi, x0, k), fp_iter(phi, x0, (k - 1) as nat))),
        corrected_eps(eps),
    )
}

/// The result of a fixed-point iteration: every iterate visited
/// before the last step, the final point, and the step count.
pub struct SolutionSimpleIterations {
    /// The iterates `x_0 .. x_{n-1}` with their function values.
    pub path: Vec<Point>,
    /// The final iterate `x_n` with its function value.
    pub current: Point,
    /// The number of steps taken, `n`.
    pub iterations: usize,
}

/// One executable fixed-point step: applies `phi` and evaluates the
/// tracked function at the new abscissa, both pinned to the spec
/// values at the spec iterate `sk`.
fn fixed_point_step(
    phi: &RatFn,
    function: &RatFn,
    cur_x: &Ratio,
    Ghost(sk): Ghost<Rat>,
) -> (r: Result<(Ratio, Ratio), NumError>)
    requires
        ratfn_wf(phi@),
        ratfn_wf(function@),
        rat_wf(sk),
        rat_eqv(cur_x@, sk),
    ensures
        match r {
            Ok(p) => {
                &&& ratfn_defined(phi@, sk)
                &&& rat_wf(ratfn_at(phi@, sk))
                &&& rat_eqv(p.0@, ratfn_at(phi@, sk))
                &&& ratfn_defined(function@, ratfn_at(phi@, sk))
                &&& rat_eqv(p.1@, ratfn_at(function@, ratfn_at(phi@, sk)))
            },
            Err(e) => {
                &&& (e == NumError::Overflow || e == NumError::DomainError)
                &&& e == NumError::DomainError ==> (!ratfn_defined(phi@, sk) || !ratfn_defined(
                    function@,
                    ratfn_at(phi@, sk),
                ))
            },
        },
{
    proof {
        use_type_invariant(cur_x);
        Ratio::lemma_inv_wf(*cur_x);
    }
    let next_x = match phi.eval(cur_x) {
        Ok(v) => v,
        Err(e) => {
            proof {
                if e == NumError::DomainError {
                    lemma_ratfn_defined_iff(phi@, cur_x@, sk);
                }
            }
            return Err(e);
        },
    };
    proof {
        use_type_invariant(&next_x);
        Ratio::lemma_inv_wf(next_x);
        lemma_ratfn_congr(phi@, cur_x@, sk);
        lemma_ratfn_at_wf(phi@, cur_x@);
        lemma_ratfn_at_wf(phi@, sk);
        lemma_eqv_trans(next_x@, ratfn_at(phi@, cur_x@), ratfn_at(phi@, sk));
    }
    let next_y = match function.eval(&next_x) {
        Ok(v) => v,
        Err(e) => {
            proof {
                if e == NumError::DomainError {
                    lemma_ratfn_defined_iff(function@, next_x@, ratfn_at(phi@, sk));
                }
            }
            return Err(e);
        },
    };
    proof {
        use_type_invariant(&next_y);
        Ratio::lemma_inv_wf(next_y);
        lemma_ratfn_congr(function@, next_x@, ratfn_at(phi@, sk));
        lemma_ratfn_at_wf(function@, next_x@);
        lemma_ratfn_at_wf(function@, ratfn_at(phi@, sk));
        lemma_eqv_trans(
            next_y@,
            ratfn_at(function@, next_x@),
            ratfn_at(function@, ratfn_at(phi@, sk)),
        );
    }
    Ok((next_x, next_y))
}

/// Whether the move from `scur` to `snext` is smaller than the given
/// bound; the answer matches the spec-level comparison exactly.
fn move_smaller(
    next_x: &Ratio,
    cur_x: &Ratio,
    bound: &Ratio,
    Ghost(snext): Ghost<Rat>,
    Ghost(scur): Ghost<Rat>,
    Ghost(sbound): Ghost<Rat>,
) -> (r: Result<bool, NumError>)
    requires
        rat_wf(snext),
        rat_wf(scur),
        rat_wf(sbound),
        rat_eqv(next_x@, snext),
        rat_eqv(cur_x@, scur),
        rat_eqv(bound@, sbound),
    ensures
        match r {
            Ok(res) => res == rat_lt(rat_abs(rat_sub(snext, scur)), sbound),
            Err(e) => e == NumError::Overflow,
        },
{
    proof {
        use_type_invariant(next_x);
        Ratio::lemma_inv_wf(*next_x);
        use_type_invariant(cur_x);
        Ratio::lemma_inv_wf(*cur_x);
        use_type_invariant(bound);
        Ratio::lemma_inv_wf(*bound);
    }
    let diff = match next_x.sub(cur_x) {
        Ok(v) => v,
        Err(e) => {
            return Err(e);
        },
    };
    let err = match diff.abs() {
        Ok(v) => v,
        Err(e) => {
            return Err(e);
        },
    };
    proof {
        use_type_invariant(&diff);
        Ratio::lemma_inv_wf(diff);
        use_type_invariant(&err);
        Ratio::lemma_inv_wf(err);
        lemma_sub_congr(next_x@, snext, cur_x@, scur);
        lemma_ops_wf(next_x@, cur_x@);
        lemma_ops_wf(snext, scur);
        lemma_eqv_trans(diff@, rat_sub(next_x@, cur_x@), rat_sub(snext, scur));
        lemma_abs_congr(diff@, rat_sub(snext, scur));
        lemma_ops_wf(diff@, diff@);
        lemma_ops_wf(rat_sub(snext, scur), rat_sub(snext, scur));
        lemma_eqv_trans(err@, rat_abs(diff@), rat_abs(rat_sub(snext, scur)));
        lemma_cmp_congr(err@, rat_abs(rat_sub(snext, scur)), bound@, sbound);
    }
    Ok(err.lt(bound))
}

/// Fixed-point iteration `x_{k+1} = phi(x_k)`, tracking
/// `y_k = function(x_k)`, stopped as soon as an iterate moves less
/// than one tenth of `epsilon`, with a defensive iteration cap.
#[verifier::rlimit(100)]
#[verifier::spinoff_prover]
pub fn find_solution_simple_iterations(
    phi: &RatFn,
    function: &RatFn,
    x0: &Ratio,
    epsilon: &Ratio,
    max_iterations: usize,
) -> (r: Result<SolutionSimpleIterations, NumError>)
    ensures
        match r {
            Ok(sol) => {
                let it = sol.iterations as int;
                &&& 1 <= sol.iterations <= max_iterations
                &&& sol.path@.len() == it
                &&& forall|k: int|
                    0 <= k < it ==> rat_eqv(
                        (#[trigger] sol.path@[k])@.x,
                        fp_iter(phi@, x0@, k as nat),
                    )
                &&& forall|k: int|
                    0 <= k < it ==> rat_eqv(
                        (#[trigger] sol.path@[k])@.y,
                        ratfn_at(function@, fp_iter(phi@, x0@, k as nat)),
                    )
                &&& rat_eqv(sol.current@.x, fp_iter(phi@, x0@, it as nat))
                &&& rat_eqv(sol.current@.y, ratfn_at(function@, fp_iter(phi@, x0@, it as nat)))
                &&& fp_small_step(phi@, x0@, epsilon@, it as nat)
                &&& forall|k: nat| 1 <= k < it ==> !fp_small_step(phi@, x0@, epsilon@, k)
                &&& forall|k: nat| k < it ==> ratfn_defined(phi@, fp_iter(phi@, x0@, k))
            },
            Err(e) => {
                &&& (e == NumError::DidNotConverge || e == NumError::Overflow || e
                    == NumError::DomainError)
                &&& e == NumError::DidNotConverge ==> forall|k: nat|
                    1 <= k <= max_iterations as nat ==> !fp_small_step(phi@, x0@, epsilon@, k)
                &&& e == NumError::DomainError ==> exists|k: nat|
                    k <= max_iterations as nat && (!ratfn_defined(
                        phi@,
                        #[trigger] fp_iter(phi@, x0@, k),
                    ) || !ratfn_defined(function@, fp_iter(phi@, x0@, k)))
            },
        },
{
    proof {
        use_type_invariant(phi);
        RatFn::lemma_fn_wf(*phi);
        use_type_invariant(function);
        RatFn::lemma_fn_wf(*function);
        use_type_invariant(x0);
        Ratio::lemma_inv_wf(*x0);
        use_type_invariant(epsilon);
        Ratio::lemma_inv_wf(*epsilon);
    }
    let ten = Ratio::from_int(10);
    let ceps = match epsilon.div(&ten) {
        Ok(v) => v,
        Err(e) => {
            return Err(e);
        },
    };
    let mut cur_x = *x0;
    let mut cur_y = match function.eval(x0) {
        Ok(v) => v,
        Err(e) => {
            proof {
                if e == NumError::DomainError {
                    assert(!ratfn_defined(function@, fp_iter(phi@, x0@, 0)));
                }
            }
            return Err(e);
        },
    };
    let mut path: Vec<Point> = Vec::new();
    let mut it: usize = 0;
    proof {
        use_type_invariant(&ceps);
        Ratio::lemma_inv_wf(ceps);
        lemma_ops_wf(epsilon@, rat_of_int(10));
    }
    while it < max_iterations
        invariant
            it <= max_iterations,
            ratfn_wf(phi@),
            ratfn_wf(function@),
            rat_wf(x0@),
            rat_wf(epsilon@),
            rat_wf(ceps@),
            rat_wf(corrected_eps(epsilon@)),
            rat_eqv(ceps@, corrected_eps(epsilon@)),
            rat_wf(fp_iter(phi@, x0@, it as nat)),
            rat_eqv(cur_x@, fp_iter(phi@, x0@, it as nat)),
            ratfn_defined(function@, fp_iter(phi@, x0@, it as nat)),
            rat_eqv(cur_y@, ratfn_at(function@, fp_iter(phi@, x0@, it as nat))),
            path@.len() == it as int,
            forall|k: int|
                0 <= k < it as int ==> rat_eqv(
                    (#[trigger] path@[k])@.x,
                    fp_iter(phi@, x0@, k as nat),
                ),
            forall|k: int|
                0 <= k < it as int ==> rat_eqv(
                    (#[trigger] path@[k])@.y,
                    ratfn_at(function@, fp_iter(phi@, x0@, k as nat)),
                ),
            forall|k: nat| 1 <= k <= it as nat ==> !fp_small_step(phi@, x0@, epsilon@, k),
            forall|k: nat| k < it as nat ==> ratfn_defined(phi@, fp_iter(phi@, x0@, k)),
        decreases max_iterations - it,
    {
        let ghost sk = fp_iter(phi@, x0@, it as nat);
        let ghost sk1 = fp_iter(phi@, x0@, (it + 1) as nat);
        proof {
            use_type_invariant(&cur_x);
            Ratio::lemma_inv_wf(cur_x);
        }
        path.push(Point::new(cur_x, cur_y));
        let stepped = match fixed_point_step(phi, function, &cur_x, Ghost(sk)) {
            Ok(v) => v,
            Err(e) => {
                proof {
                    if e == NumError::DomainError {
                        assert(fp_iter(phi@, x0@, (it + 1) as nat) == ratfn_at(phi@, sk));
                        if !ratfn_defined(phi@, sk) {
                            assert(!ratfn_defined(phi@, fp_iter(phi@, x0@, it as nat)));
                        } else {
                            assert(!ratfn_defined(
                                function@,
                                fp_iter(phi@, x0@, (it + 1) as nat),
                            ));
                        }
                    }
                }
                return Err(e);
            },
        };
        proof {
            assert(sk1 == ratfn_at(phi@, sk));
        }
        let narrow = match move_smaller(
            &stepped.0,
            &cur_x,
            &ceps,
            Ghost(sk1),
            Ghost(sk),
            Ghost(corrected_eps(epsilon@)),
        ) {
            Ok(v) => v,
            Err(e) => {
                return Err(e);
            },
        };
        it = it + 1;
        cur_x = stepped.0;
        cur_y = stepped.1;
        if narrow {
            let current = Point::new(cur_x, cur_y);
            return Ok(SolutionSimpleIterations { path, current, iterations: it });
        }
    }
    Err(NumError::DidNotConverge)
}

// ---------------------------------------------------------------
// Bisection
// ---------------------------------------------------------------
/// A sign-changing bracket around a root: the two endpoints of the
/// bisection method.
pub ghost struct BracketV {
    pub l: PointV,
    pub r: PointV,
}

/// One bisection step: evaluate the function at the midpoint and
/// replace the endpoint whose value shares the midpoint value's sign.
pub open spec fn bis_step(f: RatFnV, b: BracketV) -> BracketV {
    let mx = rat_div(rat_add(b.l.x, b.r.x), rat_of_int(2));
    let my = ratfn_at(f, mx);
    if rat_nonneg(b.l.y) == rat_nonneg(my) {
        BracketV { l: PointV { x: mx, y: my }, r: b.r }
    } else {
        BracketV { l: b.l, r: PointV { x: mx, y: my } }
    }
}

/// The bracket after `k` bisection steps.
pub open spec fn bis_iter(f: RatFnV, b0: BracketV, k: nat) -> BracketV
    decreases k,
{
    if k == 0 {
        b0
    } else {
        bis_step(f, bis_iter(f, b0, (k - 1) as nat))
    }
}

/// The midpoint evaluated during step `k + 1` of the bisection.
pub open spec fn bis_mid(f: RatFnV, b0: BracketV, k: nat) -> Rat {
    rat_div(rat_add(bis_iter(f, b0, k).l.x, bis_iter(f, b0, k).r.x), rat_of_int(2))
}

/// The bisection stopping rule holds after step `k`: the bracket is
/// narrower than twice the nominal epsilon.
pub open spec fn bis_narrow(f: RatFnV, b0: BracketV, eps: Rat, k: nat) -> bool {
    rat_lt(
        rat_abs(rat_sub(bis_iter(f, b0, k).l.x, bis_iter(f, b0, k).r.x)),
        rat_mul(rat_of_int(2), eps),
    )
}

/// The bracket endpoints' values have opposite signs (where a value
/// of zero counts as positive, as the sign test of the method does).
pub open spec fn bracket_sign_change(b: BracketV) -> bool {
    rat_nonneg(b.l.y) != rat_nonneg(b.r.y)
}

/// Bisection keeps the sign change of the bracket: if the two
/// endpoint values have opposite signs, they still do after any
/// number of steps. This is the bracket invariant of the method.
pub proof fn lemma_bisection_keeps_sign_change(f: RatFnV, b0: BracketV, k: nat)
    requires
        bracket_sign_change(b0),
    ensures
        bracket_sign_change(bis_iter(f, b0, k)),
    decreases k,
{
    if k > 0 {
        lemma_bisection_keeps_sign_change(f, b0, (k - 1) as nat);
    }
}

/// One executable bisection step: computes the midpoint, evaluates
/// the function there, and replaces the endpoint sharing the midpoint
/// value's sign. The result matches [`bis_step`] on the spec bracket.
fn bisect_step(
    function: &RatFn,
    l: &Point,
    rgt: &Point,
    two: &Ratio,
    Ghost(bk): Ghost<BracketV>,
) -> (r: Result<(Point, Point), NumError>)
    requires
        ratfn_wf(function@),
        two@ == rat_of_int(2),
        point_wf(bk.l),
        point_wf(bk.r),
        point_eqv(l@, bk.l),
        point_eqv(rgt@, bk.r),
    ensures
        match r {
            Ok(p) => {
                &&& point_eqv(p.0@, bis_step(function@, bk).l)
                &&& point_eqv(p.1@, bis_step(function@, bk).r)
                &&& point_wf(bis_step(function@, bk).l)
                &&& point_wf(bis_step(function@, bk).r)
                &&& ratfn_defined(function@, rat_div(rat_add(bk.l.x, bk.r.x), rat_of_int(2)))
            },
            Err(e) => {
                &&& (e == NumError::Overflow || e == NumError::DomainError)
                &&& e == NumError::DomainError ==> !ratfn_defined(
                    function@,
                    rat_div(rat_add(bk.l.x, bk.r.x), rat_of_int(2)),
                )
            },
        },
{
    let ghost smx = rat_div(rat_add(bk.l.x, bk.r.x), rat_of_int(2));
    proof {
        use_type_invariant(l);
        Point::lemma_inv_wf(*l);
        use_type_invariant(rgt);
        Point::lemma_inv_wf(*rgt);
    }
    let sum = match l.x().add(&rgt.x()) {
        Ok(v) => v,
        Err(e) => {
            return Err(e);
        },
    };
    let mx = match sum.div(two) {
        Ok(v) => v,
        Err(e) => {
            return Err(e);
        },
    };
    proof {
        use_type_invariant(&sum);
        Ratio::lemma_inv_wf(sum);
        use_type_invariant(&mx);
        Ratio::lemma_inv_wf(mx);
        lemma_add_congr(l@.x, bk.l.x, rgt@.x, bk.r.x);
        lemma_ops_wf(l@.x, rgt@.x);
        lemma_ops_wf(bk.l.x, bk.r.x);
        lemma_eqv_trans(sum@, rat_add(l@.x, rgt@.x), rat_add(bk.l.x, bk.r.x));
        lemma_div_congr(sum@, rat_add(bk.l.x, bk.r.x), two@, rat_of_int(2));
        lemma_ops_wf(sum@, two@);
        lemma_ops_wf(rat_add(bk.l.x, bk.r.x), rat_of_int(2));
        lemma_eqv_trans(mx@, rat_div(sum@, two@), smx);
    }
    let my = match function.eval(&mx) {
        Ok(v) => v,
        Err(e) => {
            proof {
                if e == NumError::DomainError {
                    lemma_ratfn_defined_iff(function@, mx@, smx);
                }
            }
            return Err(e);
        },
    };
    proof {
        use_type_invariant(&my);
        Ratio::lemma_inv_wf(my);
        lemma_ratfn_congr(function@, mx@, smx);
        lemma_ratfn_at_wf(function@, mx@);
        lemma_ratfn_at_wf(function@, smx);
        lemma_eqv_trans(my@, ratfn_at(function@, mx@), ratfn_at(function@, smx));
        lemma_cmp_congr(l@.y, bk.l.y, my@, ratfn_at(function@, smx));
        lemma_cmp_congr(my@, ratfn_at(function@, smx), my@, ratfn_at(function@, smx));
    }
    if l.y().is_nonneg() == my.is_nonneg() {
        Ok((Point::new(mx, my), *rgt))
    } else {
        Ok((*l, Point::new(mx, my)))
    }
}

/// Whether the gap between the two abscissas is smaller than the
/// given bound; the answer matches the spec-level comparison exactly.
fn gap_narrower(
    a: &Point,
    b: &Point,
    bound: &Ratio,
    Ghost(pa): Ghost<PointV>,
    Ghost(pb): Ghost<PointV>,
    Ghost(sbound): Ghost<Rat>,
) -> (r: Result<bool, NumError>)
    requires
        point_wf(pa),
        point_wf(pb),
        point_eqv(a@, pa),
        point_eqv(b@, pb),
        rat_wf(sbound),
        rat_eqv(bound@, sbound),
    ensures
        match r {
            Ok(res) => res == rat_lt(rat_abs(rat_sub(pa.x, pb.x)), sbound),
            Err(e) => e == NumError::Overflow,
        },
{
    proof {
        use_type_invariant(a);
        Point::lemma_inv_wf(*a);
        use_type_invariant(b);
        Point::lemma_inv_wf(*b);
        use_type_invariant(bound);
        Ratio::lemma_inv_wf(*bound);
    }
    let diff = match a.x().sub(&b.x()) {
        Ok(v) => v,
        Err(e) => {
            return Err(e);
        },
    };
    let err = match diff.abs() {
        Ok(v) => v,
        Err(e) => {
            return Err(e);
        },
    };
    proof {
        use_type_invariant(&diff);
        Ratio::lemma_inv_wf(diff);
        use_type_invariant(&err);
        Ratio::lemma_inv_wf(err);
        lemma_sub_congr(a@.x, pa.x, b@.x, pb.x);
        lemma_ops_wf(a@.x, b@.x);
        lemma_ops_wf(pa.x, pb.x);
        lemma_eqv_trans(diff@, rat_sub(a@.x, b@.x), rat_sub(pa.x, pb.x));
        lemma_abs_congr(diff@, rat_sub(pa.x, pb.x));
        lemma_ops_wf(diff@, diff@);
        lemma_ops_wf(rat_sub(pa.x, pb.x), rat_sub(pa.x, pb.x));
        lemma_eqv_trans(err@, rat_abs(diff@), rat_abs(rat_sub(pa.x, pb.x)));
        lemma_cmp_congr(err@, rat_abs(rat_sub(pa.x, pb.x)), bound@, sbound);
    }
    Ok(err.lt(bound))
}

/// Orders the two endpoints of the final bracket: the one with the
/// smaller `|y|` first, mirroring the spec-level comparison.
fn pick_current(l: &Point, rgt: &Point, Ghost(bk): Ghost<BracketV>) -> (r: Result<
    (Point, Point),
    NumError,
>)
    requires
        point_wf(bk.l),
        point_wf(bk.r),
        point_eqv(l@, bk.l),
        point_eqv(rgt@, bk.r),
    ensures
        match r {
            Ok(p) => {
                &&& rat_lt(rat_abs(bk.l.y), rat_abs(bk.r.y)) ==> p.0@ == l@ && p.1@ == rgt@
                &&& !rat_lt(rat_abs(bk.l.y), rat_abs(bk.r.y)) ==> p.0@ == rgt@ && p.1@ == l@
            },
            Err(e) => e == NumError::Overflow,
        },
{
    proof {
        use_type_invariant(l);
        Point::lemma_inv_wf(*l);
        use_type_invariant(rgt);
        Point::lemma_inv_wf(*rgt);
    }
    let la = match l.y().abs() {
        Ok(v) => v,
        Err(e) => {
            return Err(e);
        },
    };
    let ra = match rgt.y().abs() {
        Ok(v) => v,
        Err(e) => {
            return Err(e);
        },
    };
    proof {
        use_type_invariant(&la);
        Ratio::lemma_inv_wf(la);
        use_type_invariant(&ra);
        Ratio::lemma_inv_wf(ra);
        lemma_abs_congr(l@.y, bk.l.y);
        lemma_abs_congr(rgt@.y, bk.r.y);
        lemma_ops_wf(l@.y, l@.y);
        lemma_ops_wf(rgt@.y, rgt@.y);
        lemma_ops_wf(bk.l.y, bk.l.y);
        lemma_ops_wf(bk.r.y, bk.r.y);
        lemma_eqv_trans(la@, rat_abs(l@.y), rat_abs(bk.l.y));
        lemma_eqv_trans(ra@, rat_abs(rgt@.y), rat_abs(bk.r.y));
        lemma_cmp_congr(la@, rat_abs(bk.l.y), ra@, rat_abs(bk.r.y));
    }
    if la.lt(&ra) {
        Ok((*l, *rgt))
    } else {
        Ok((*rgt, *l))
    }
}

/// The result of a bisection: the endpoint whose value is smaller in
/// magnitude, the other endpoint, and the step count.
pub struct SolutionSplit {
    /// The endpoint of the final bracket with the smaller `|y|`.
    pub current: Point,
    /// The other endpoint of the final bracket.
    pub previous: Point,
    /// The number of bisection steps taken.
    pub iterations: usize,
}

/// Bisection with sign tracking: starting from a bracket whose
/// endpoint values have opposite signs, repeatedly replace the
/// endpoint that shares the midpoint value's sign, until the bracket
/// is narrower than `2 * epsilon`. A bracket without a sign change is
/// rejected as [`NumError::InvalidBracket`].
#[verifier::rlimit(100)]
#[verifier::spinoff_prover]
pub fn find_solution_split(
    function: &RatFn,
    left: &Point,
    right: &Point,
    epsilon: &Ratio,
    max_iterations: usize,
) -> (r: Result<SolutionSplit, NumError>)
    ensures
        ({
            let b0 = BracketV { l: left@, r: right@ };
            match r {
                Ok(sol) => {
                    let it = sol.iterations as nat;
                    let bf = bis_iter(function@, b0, it);
                    &&& bracket_sign_change(b0)
                    &&& 1 <= sol.iterations <= max_iterations
                    &&& bis_narrow(function@, b0, epsilon@, it)
                    &&& forall|k: nat| 1 <= k < it ==> !bis_narrow(function@, b0, epsilon@, k)
                    &&& (rat_lt(rat_abs(bf.l.y), rat_abs(bf.r.y)) ==> point_eqv(sol.current@, bf.l)
                        && point_eqv(sol.previous@, bf.r))
                    &&& (!rat_lt(rat_abs(bf.l.y), rat_abs(bf.r.y)) ==> point_eqv(
                        sol.current@,
                        bf.r,
                    ) && point_eqv(sol.previous@, bf.l))
                    &&& forall|k: nat|
                        k < it ==> ratfn_defined(function@, bis_mid(function@, b0, k))
                },
                Err(e) => {
                    &&& (e == NumError::InvalidBracket || e == NumError::DidNotConverge || e
                        == NumError::Overflow || e == NumError::DomainError)
                    &&& (e == NumError::InvalidBracket <==> !bracket_sign_change(b0))
                    &&& e == NumError::DidNotConverge ==> forall|k: nat|
                        1 <= k <= max_iterations as nat ==> !bis_narrow(function@, b0, epsilon@, k)
                    &&& e == NumError::DomainError ==> exists|k: nat|
                        k < max_iterations as nat && !ratfn_defined(
                            function@,
                            #[trigger] bis_mid(function@, b0, k),
                        )
                },
            }
        }),
{
    proof {
        use_type_invariant(function);
        RatFn::lemma_fn_wf(*function);
        use_type_invariant(left);
        Point::lemma_inv_wf(*left);
        use_type_invariant(right);
        Point::lemma_inv_wf(*right);
        use_type_invariant(epsilon);
        Ratio::lemma_inv_wf(*epsilon);
    }
    let ghost b0 = BracketV { l: left@, r: right@ };
    let ly = left.y();
    let ry = right.y();
    if ly.is_nonneg() == ry.is_nonneg() {
        return Err(NumError::InvalidBracket);
    }
    let two = Ratio::from_int(2);
    let eps2 = match two.mul(epsilon) {
        Ok(v) => v,
        Err(e) => {
            return Err(e);
        },
    };
    proof {
        use_type_invariant(&eps2);
        Ratio::lemma_inv_wf(eps2);
        lemma_ops_wf(rat_of_int(2), epsilon@);
    }
    let mut l = *left;
    let mut rgt = *right;
    let mut it: usize = 0;
    while it < max_iterations
        invariant
            it <= max_iterations,
            ratfn_wf(function@),
            b0 == (BracketV { l: left@, r: right@ }),
            bracket_sign_change(b0),
            two@ == rat_of_int(2),
            rat_wf(epsilon@),
            rat_wf(eps2@),
            rat_wf(rat_mul(rat_of_int(2), epsilon@)),
            rat_eqv(eps2@, rat_mul(rat_of_int(2), epsilon@)),
            point_wf(bis_iter(function@, b0, it as nat).l),
            point_wf(bis_iter(function@, b0, it as nat).r),
            point_eqv(l@, bis_iter(function@, b0, it as nat).l),
            point_eqv(rgt@, bis_iter(function@, b0, it as nat).r),
            forall|k: nat| 1 <= k <= it as nat ==> !bis_narrow(function@, b0, epsilon@, k),
            forall|k: nat| k < it as nat ==> ratfn_defined(function@, bis_mid(function@, b0, k)),
        decreases max_iterations - it,
    {
        let ghost bk = bis_iter(function@, b0, it as nat);
        let ghost bk1 = bis_iter(function@, b0, (it + 1) as nat);
        let stepped = match bisect_step(function, &l, &rgt, &two, Ghost(bk)) {
            Ok(v) => v,
            Err(e) => {
                proof {
                    if e == NumError::DomainError {
                        assert(bis_mid(function@, b0, it as nat) == rat_div(
                            rat_add(bk.l.x, bk.r.x),
                            rat_of_int(2),
                        ));
                        assert(!ratfn_defined(function@, bis_mid(function@, b0, it as nat)));
                    }
                }
                return Err(e);
            },
        };
        l = stepped.0;
        rgt = stepped.1;
        proof {
            assert(bk1 == bis_step(function@, bk));
            assert(bis_mid(function@, b0, it as nat) == rat_div(
                rat_add(bk.l.x, bk.r.x),
                rat_of_int(2),
            ));
        }
        it = it + 1;
        let narrow = match gap_narrower(
            &l,
            &rgt,
            &eps2,
            Ghost(bk1.l),
            Ghost(bk1.r),
            Ghost(rat_mul(rat_of_int(2), epsilon@)),
        ) {
            Ok(v) => v,
            Err(e) => {
                return Err(e);
            },
        };
        if narrow {
            let picked = match pick_current(&l, &rgt, Ghost(bk1)) {
                Ok(v) => v,
                Err(e) => {
                    return Err(e);
                },
            };
            return Ok(SolutionSplit { current: picked.0, previous: picked.1, iterations: it });
        }
    }
    Err(NumError::DidNotConverge)
}

// ---------------------------------------------------------------
// Secant (two-point divided difference) iteration
// ---------------------------------------------------------------
/// The state of the secant iteration: the two latest iterates.
pub ghost struct SecantV {
    pub prev: PointV,
    pub cur: PointV,
}

/// The secant iteration is degenerate in this state: the two latest
/// function values are equal, so the divided difference has a zero
/// divisor.
pub open spec fn sec_degenerate(s: SecantV) -> bool {
    rat_is_zero(rat_sub(s.cur.y, s.prev.y))
}

/// The next secant abscissa:
/// `x_{n+1} = x_n - (x_n - x_{n-1}) / (y_n - y_{n-1}) * y_n`.
pub open spec fn sec_next_x(s: SecantV) -> Rat {
    rat_sub(
        s.cur.x,
        rat_mul(rat_div(rat_sub(s.cur.x, s.prev.x), rat_sub(s.cur.y, s.prev.y)), s.cur.y),
    )
}

/// One secant step: the latest iterate becomes the previous one, and
/// the new iterate carries the function value at the new abscissa.
pub open spec fn sec_step(f: RatFnV, s: SecantV) -> SecantV {
    let nx = sec_next_x(s);
    SecantV { prev: s.cur, cur: PointV { x: nx, y: ratfn_at(f, nx) } }
}

/// The secant state after `k` steps.
pub open spec fn sec_iter(f: RatFnV, s0: SecantV, k: nat) -> SecantV
    decreases k,
{
    if k == 0 {
        s0
    } else {
        sec_step(f, sec_iter(f, s0, (k - 1) as nat))
    }
}

/// The secant stopping rule holds after step `k >= 1`: the last
/// movement was smaller than epsilon.
pub open spec fn sec_small_step(f: RatFnV, s0: SecantV, eps: Rat, k: nat) -> bool {
    rat_lt(rat_abs(rat_sub(sec_iter(f, s0, k).cur.x, sec_iter(f, s0, k).prev.x)), eps)
}

/// One executable secant step, matching [`sec_step`] on the spec
/// state. An exactly zero difference of function values is a
/// [`NumError::DivergentIteration`].
fn secant_step(
    function: &RatFn,
    prev: &Point,
    cur: &Point,
    Ghost(sk): Ghost<SecantV>,
) -> (r: Result<(Point, Point), NumError>)
    requires
        ratfn_wf(function@),
        point_wf(sk.prev),
        point_wf(sk.cur),
        point_eqv(prev@, sk.prev),
        point_eqv(cur@, sk.cur),
    ensures
        match r {
            Ok(p) => {
                &&& !sec_degenerate(sk)
                &&& point_eqv(p.0@, sec_step(function@, sk).prev)
                &&& point_eqv(p.1@, sec_step(function@, sk).cur)
                &&& point_wf(sec_step(function@, sk).prev)
                &&& point_wf(sec_step(function@, sk).cur)
                &&& ratfn_defined(function@, sec_next_x(sk))
            },
            Err(e) => {
                &&& (e == NumError::Overflow || e == NumError::DomainError || e
                    == NumError::DivergentIteration)
                &&& e == NumError::DivergentIteration ==> sec_degenerate(sk)
                &&& e == NumError::DomainError ==> !ratfn_defined(function@, sec_next_x(sk))
            },
        },
{
    let ghost snx = sec_next_x(sk);
    proof {
        use_type_invariant(prev);
        Point::lemma_inv_wf(*prev);
        use_type_invariant(cur);
        Point::lemma_inv_wf(*cur);
    }
    let dx = match cur.x().sub(&prev.x()) {
        Ok(v) => v,
        Err(e) => {
            return Err(e);
        },
    };
    let dy = match cur.y().sub(&prev.y()) {
        Ok(v) => v,
        Err(e) => {
            return Err(e);
        },
    };
    proof {
        use_type_invariant(&dx);
        Ratio::lemma_inv_wf(dx);
        use_type_invariant(&dy);
        Ratio::lemma_inv_wf(dy);
        lemma_sub_congr(cur@.x, sk.cur.x, prev@.x, sk.prev.x);
        lemma_sub_congr(cur@.y, sk.cur.y, prev@.y, sk.prev.y);
        lemma_ops_wf(cur@.x, prev@.x);
        lemma_ops_wf(cur@.y, prev@.y);
        lemma_ops_wf(sk.cur.x, sk.prev.x);
        lemma_ops_wf(sk.cur.y, sk.prev.y);
        lemma_eqv_trans(dx@, rat_sub(cur@.x, prev@.x), rat_sub(sk.cur.x, sk.prev.x));
        lemma_eqv_trans(dy@, rat_sub(cur@.y, prev@.y), rat_sub(sk.cur.y, sk.prev.y));
        lemma_cmp_congr(
            dy@,
            rat_sub(sk.cur.y, sk.prev.y),
            dy@,
            rat_sub(sk.cur.y, sk.prev.y),
        );
    }
    if dy.is_zero() {
        return Err(NumError::DivergentIteration);
    }
    let q = match dx.div(&dy) {
        Ok(v) => v,
        Err(e) => {
            return Err(e);
        },
    };
    let t = match q.mul(&cur.y()) {
        Ok(v) => v,
        Err(e) => {
            return Err(e);
        },
    };
    let nx = match cur.x().sub(&t) {
        Ok(v) => v,
        Err(e) => {
            return Err(e);
        },
    };
    let ghost sq = rat_div(rat_sub(sk.cur.x, sk.prev.x), rat_sub(sk.cur.y, sk.prev.y));
    proof {
        use_type_invariant(&q);
        Ratio::lemma_inv_wf(q);
        use_type_invariant(&t);
        Ratio::lemma_inv_wf(t);
        use_type_invariant(&nx);
        Ratio::lemma_inv_wf(nx);
        lemma_div_congr(
            dx@,
            rat_sub(sk.cur.x, sk.prev.x),
            dy@,
            rat_sub(sk.cur.y, sk.prev.y),
        );
        lemma_ops_wf(dx@, dy@);
        lemma_ops_wf(rat_sub(sk.cur.x, sk.prev.x), rat_sub(sk.cur.y, sk.prev.y));
        lemma_eqv_trans(q@, rat_div(dx@, dy@), sq);
        lemma_mul_congr(q@, sq, cur@.y, sk.cur.y);
        lemma_ops_wf(q@, cur@.y);
        lemma_ops_wf(sq, sk.cur.y);
        lemma_eqv_trans(t@, rat_mul(q@, cur@.y), rat_mul(sq, sk.cur.y));
        lemma_sub_congr(cur@.x, sk.cur.x, t@, rat_mul(sq, sk.cur.y));
        lemma_ops_wf(cur@.x, t@);
        lemma_ops_wf(sk.cur.x, rat_mul(sq, sk.cur.y));
        lemma_eqv_trans(nx@, rat_sub(cur@.x, t@), snx);
    }
    let ny = match function.eval(&nx) {
        Ok(v) => v,
        Err(e) => {
            proof {
                if e == NumError::DomainError {
                    lemma_ratfn_defined_iff(function@, nx@, snx);
                }
            }
            return Err(e);
        },
    };
    proof {
        use_type_invariant(&ny);
        Ratio::lemma_inv_wf(ny);
        lemma_ratfn_congr(function@, nx@, snx);
        lemma_ratfn_at_wf(function@, nx@);
        lemma_ratfn_at_wf(function@, snx);
        lemma_eqv_trans(ny@, ratfn_at(function@, nx@), ratfn_at(function@, snx));
    }
    Ok((*cur, Point::new(nx, ny)))
}

/// The result of a secant iteration: the final iterate and the step
/// count.
pub struct SolutionNewtonSecant {
    /// The final iterate with its function value.
    pub current: Point,
    /// The number of steps taken.
    pub iterations: usize,
}

/// Secant (two-point divided difference) iteration
/// `x_{n+1} = x_n - (x_n - x_{n-1}) / (y_n - y_{n-1}) * y_n`,
/// stopped as soon as an iterate moves less than `epsilon`, with a
/// defensive iteration cap. An exactly zero divided-difference
/// divisor surfaces as [`NumError::DivergentIteration`].
#[verifier::rlimit(100)]
#[verifier::spinoff_prover]
pub fn find_solution_newton_secant(
    function: &RatFn,
    current: &Point,
    previous: &Point,
    epsilon: &Ratio,
    max_iterations: usize,
) -> (r: Result<SolutionNewtonSecant, NumError>)
    ensures
        ({
            let s0 = SecantV { prev: previous@, cur: current@ };
            match r {
                Ok(sol) => {
                    let it = sol.iterations as nat;
                    &&& 1 <= sol.iterations <= max_iterations
                    &&& point_eqv(sol.current@, sec_iter(function@, s0, it).cur)
                    &&& sec_small_step(function@, s0, epsilon@, it)
                    &&& forall|k: nat| 1 <= k < it ==> !sec_small_step(function@, s0, epsilon@, k)
                    &&& forall|k: nat| k < it ==> !sec_degenerate(sec_iter(function@, s0, k))
                },
                Err(e) => {
                    &&& (e == NumError::DidNotConverge || e == NumError::Overflow || e
                        == NumError::DomainError || e == NumError::DivergentIteration)
                    &&& e == NumError::DidNotConverge ==> forall|k: nat|
                        1 <= k <= max_iterations as nat ==> !sec_small_step(
                            function@,
                            s0,
                            epsilon@,
                            k,
                        )
                    &&& e == NumError::DivergentIteration ==> exists|k: nat|
                        k < max_iterations && sec_degenerate(
                            #[trigger] sec_iter(function@, s0, k),
                        )
                    &&& e == NumError::DomainError ==> exists|k: nat|
                        k < max_iterations as nat && !ratfn_defined(
                            function@,
                            sec_next_x(#[trigger] sec_iter(function@, s0, k)),
                        )
                },
            }
        }),
{
    proof {
        use_type_invariant(function);
        RatFn::lemma_fn_wf(*function);
        use_type_invariant(current);
        Point::lemma_inv_wf(*current);
        use_type_invariant(previous);
        Point::lemma_inv_wf(*previous);
        use_type_invariant(epsilon);
        Ratio::lemma_inv_wf(*epsilon);
    }
    let ghost s0 = SecantV { prev: previous@, cur: current@ };
    let mut prev = *previous;
    let mut cur = *current;
    let mut it: usize = 0;
    while it < max_iterations
        invariant
            it <= max_iterations,
            ratfn_wf(function@),
            s0 == (SecantV { prev: previous@, cur: current@ }),
            rat_wf(epsilon@),
            point_wf(sec_iter(function@, s0, it as nat).prev),
            point_wf(sec_iter(function@, s0, it as nat).cur),
            point_eqv(prev@, sec_iter(function@, s0, it as nat).prev),
            point_eqv(cur@, sec_iter(function@, s0, it as nat).cur),
            forall|k: nat| 1 <= k <= it as nat ==> !sec_small_step(function@, s0, epsilon@, k),
            forall|k: nat| k < it as nat ==> !sec_degenerate(sec_iter(function@, s0, k)),
        decreases max_iterations - it,
    {
        let ghost sk = sec_iter(function@, s0, it as nat);
        let ghost sk1 = sec_iter(function@, s0, (it + 1) as nat);
        let stepped = match secant_step(function, &prev, &cur, Ghost(sk)) {
            Ok(v) => v,
            Err(e) => {
                proof {
                    if e == NumError::DivergentIteration {
                        assert(sec_degenerate(sec_iter(function@, s0, it as nat)));
                    }
                    if e == NumError::DomainError {
                        assert(!ratfn_defined(
                            function@,
                            sec_next_x(sec_iter(function@, s0, it as nat)),
                        ));
                    }
                }
                return Err(e);
            },
        };
        prev = stepped.0;
        cur = stepped.1;
        proof {
            assert(sk1 == sec_step(function@, sk));
        }
        it = it + 1;
        let narrow = match gap_narrower(
            &cur,
            &prev,
            epsilon,
            Ghost(sk1.cur),
            Ghost(sk1.prev),
            Ghost(epsilon@),
        ) {
            Ok(v) => v,
            Err(e) => {
                return Err(e);
            },
        };
        if narrow {
            return Ok(SolutionNewtonSecant { current: cur, iterations: it });
        }
    }
    Err(NumError::DidNotConverge)
}

} // verus!
