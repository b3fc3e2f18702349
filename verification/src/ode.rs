//! ODE integration.
//!
//! Single-step and multi-step methods for the scalar first-order
//! equation `y' = f(x, y)` over a bounded interval with a fixed step:
//! the Euler method, a four-stage Runge–Kutta scheme (with this
//! exercise family's particular stage offsets and update weights,
//! kept exactly as stated), and the four-step Adams–Bashforth
//! predictor. Every produced sample is pinned to a spec-level
//! recursion, and the per-step Richardson (step-halving) error
//! estimates are pinned to their defining formula.

use vstd::prelude::*;

use crate::error::NumError;
use crate::points::{point_eqv, point_wf, Point, PointV};
use crate::poly::{
    lemma_ratfn2_at_wf, lemma_ratfn2_congr, lemma_ratfn2_defined_iff, ratfn2_at, ratfn2_defined,
    ratfn2_wf, RatFn2, RatFn2V,
};
use crate::rat::{
    lemma_abs_congr, lemma_add_congr, lemma_cmp_congr, lemma_div_congr, lemma_eqv_trans,
    lemma_mul_congr, lemma_ops_wf, lemma_sub_congr, rat_abs, rat_add, rat_div, rat_eqv, rat_le,
    rat_lt, rat_mul, rat_of_int, rat_sub, rat_wf, Rat, Ratio,
};

verus! {

/// `a + b * c` on spec rationals: the shape of every explicit
/// integration update.
pub open spec fn rat_axpy(a: Rat, b: Rat, c: Rat) -> Rat {
    rat_add(a, rat_mul(b, c))
}

/// Computes `a + b * c`, pinned to [`rat_axpy`] on the given spec
/// values.
fn axpy(
    a: &Ratio,
    b: &Ratio,
    c: &Ratio,
    Ghost(sa): Ghost<Rat>,
    Ghost(sb): Ghost<Rat>,
    Ghost(sc): Ghost<Rat>,
) -> (r: Result<Ratio, NumError>)
    requires
        rat_wf(sa),
        rat_wf(sb),
        rat_wf(sc),
        rat_eqv(a@, sa),
        rat_eqv(b@, sb),
        rat_eqv(c@, sc),
    ensures
        match r {
            Ok(v) => rat_eqv(v@, rat_axpy(sa, sb, sc)),
            Err(e) => e == NumError::Overflow,
        },
{
    proof {
        use_type_invariant(a);
        Ratio::lemma_inv_wf(*a);
        use_type_invariant(b);
        Ratio::lemma_inv_wf(*b);
        use_type_invariant(c);
        Ratio::lemma_inv_wf(*c);
    }
    let t = match b.mul(c) {
        Ok(v) => v,
        Err(e) => {
            return Err(e);
        },
    };
    let out = match a.add(&t) {
        Ok(v) => v,
        Err(e) => {
            return Err(e);
        },
    };
    proof {
        use_type_invariant(&t);
        Ratio::lemma_inv_wf(t);
        use_type_invariant(&out);
        Ratio::lemma_inv_wf(out);
        lemma_mul_congr(b@, sb, c@, sc);
        lemma_ops_wf(b@, c@);
        lemma_ops_wf(sb, sc);
        lemma_eqv_trans(t@, rat_mul(b@, c@), rat_mul(sb, sc));
        lemma_add_congr(a@, sa, t@, rat_mul(sb, sc));
        lemma_ops_wf(a@, t@);
        lemma_ops_wf(sa, rat_mul(sb, sc));
        lemma_eqv_trans(out@, rat_add(a@, t@), rat_axpy(sa, sb, sc));
    }
    Ok(out)
}

/// One Euler step applied to a sample: the abscissa advances by `h`
/// and the ordinate by `h * f(x, y)`.
pub open spec fn euler_step(f: RatFn2V, p: PointV, h: Rat) -> PointV {
    PointV { x: rat_add(p.x, h), y: rat_axpy(p.y, h, ratfn2_at(f, p.x, p.y)) }
}

/// The Euler iterate after `k` steps from `p0`.
pub open spec fn euler_iter(f: RatFn2V, p0: PointV, h: Rat, k: nat) -> PointV
    decreases k,
{
    if k == 0 {
        p0
    } else {
        euler_step(f, euler_iter(f, p0, h, (k - 1) as nat), h)
    }
}

/// The ordinate reached from `p` by two Euler half steps of size
/// `h / 2`, the comparison value of the Richardson (step-halving)
/// error estimate.
pub open spec fn step_halved_y(f: RatFn2V, p: PointV, h: Rat) -> Rat {
    let h2 = rat_div(h, rat_of_int(2));
    let y_other = rat_axpy(p.y, h2, ratfn2_at(f, p.x, p.y));
    rat_axpy(y_other, h2, ratfn2_at(f, rat_add(p.x, h2), y_other))
}

/// Both half-step evaluation points of [`step_halved_y`] have a
/// nonzero denominator.
pub open spec fn halved_defined(f: RatFn2V, p: PointV, h: Rat) -> bool {
    let h2 = rat_div(h, rat_of_int(2));
    let y_other = rat_axpy(p.y, h2, ratfn2_at(f, p.x, p.y));
    ratfn2_defined(f, p.x, p.y) && ratfn2_defined(f, rat_add(p.x, h2), y_other)
}

/// The Richardson (step-halving) local error estimate for a step
/// from `p` that produced the ordinate `ynext`:
/// `|ynext - y_halved| / denom`, where `denom` is `2^p - 1` for a
/// method of order `p`.
pub open spec fn richardson_est(f: RatFn2V, p: PointV, ynext: Rat, h: Rat, denom: Rat) -> Rat {
    rat_div(rat_abs(rat_sub(ynext, step_halved_y(f, p, h))), denom)
}

/// Computes [`step_halved_y`] for the sample `p`, pinned to the spec
/// value at the ghost sample `sp`.
fn half_steps_y(f: &RatFn2, p: &Point, h: &Ratio, Ghost(sp): Ghost<PointV>) -> (r: Result<
    Ratio,
    NumError,
>)
    requires
        ratfn2_wf(f@),
        point_wf(sp),
        point_eqv(p@, sp),
    ensures
        match r {
            Ok(v) => {
                &&& halved_defined(f@, sp, h@)
                &&& rat_eqv(v@, step_halved_y(f@, sp, h@))
                &&& rat_wf(step_halved_y(f@, sp, h@))
            },
            Err(e) => {
                &&& (e == NumError::Overflow || e == NumError::DomainError)
                &&& e == NumError::DomainError ==> !halved_defined(f@, sp, h@)
            },
        },
{
    proof {
        use_type_invariant(p);
        Point::lemma_inv_wf(*p);
        use_type_invariant(h);
        Ratio::lemma_inv_wf(*h);
    }
    let two = Ratio::from_int(2);
    let h2 = match h.div(&two) {
        Ok(v) => v,
        Err(e) => {
            return Err(e);
        },
    };
    let ghost sh2 = rat_div(h@, rat_of_int(2));
    proof {
        use_type_invariant(&h2);
        Ratio::lemma_inv_wf(h2);
        lemma_ops_wf(h@, rat_of_int(2));
    }
    let fv = match f.eval(&p.x(), &p.y()) {
        Ok(v) => v,
        Err(e) => {
            proof {
                if e == NumError::DomainError {
                    lemma_ratfn2_defined_iff(f@, p@.x, sp.x, p@.y, sp.y);
                }
            }
            return Err(e);
        },
    };
    let ghost sfv = ratfn2_at(f@, sp.x, sp.y);
    proof {
        use_type_invariant(&fv);
        Ratio::lemma_inv_wf(fv);
        lemma_ratfn2_congr(f@, p@.x, sp.x, p@.y, sp.y);
        lemma_ratfn2_at_wf(f@, p@.x, p@.y);
        lemma_ratfn2_at_wf(f@, sp.x, sp.y);
        lemma_eqv_trans(fv@, ratfn2_at(f@, p@.x, p@.y), sfv);
    }
    let y_other = match axpy(&p.y(), &h2, &fv, Ghost(sp.y), Ghost(sh2), Ghost(sfv)) {
        Ok(v) => v,
        Err(e) => {
            return Err(e);
        },
    };
    let ghost sy_other = rat_axpy(sp.y, sh2, sfv);
    let x_mid = match p.x().add(&h2) {
        Ok(v) => v,
        Err(e) => {
            return Err(e);
        },
    };
    let ghost sx_mid = rat_add(sp.x, sh2);
    proof {
        use_type_invariant(&y_other);
        Ratio::lemma_inv_wf(y_other);
        use_type_invariant(&x_mid);
        Ratio::lemma_inv_wf(x_mid);
        lemma_add_congr(p@.x, sp.x, h2@, sh2);
        lemma_ops_wf(p@.x, h2@);
        lemma_ops_wf(sp.x, sh2);
        lemma_eqv_trans(x_mid@, rat_add(p@.x, h2@), sx_mid);
        lemma_ops_wf(sh2, sfv);
        lemma_ops_wf(sp.y, rat_mul(sh2, sfv));
    }
    let fv2 = match f.eval(&x_mid, &y_other) {
        Ok(v) => v,
        Err(e) => {
            proof {
                if e == NumError::DomainError {
                    lemma_ratfn2_defined_iff(f@, x_mid@, sx_mid, y_other@, sy_other);
                }
            }
            return Err(e);
        },
    };
    let ghost sfv2 = ratfn2_at(f@, sx_mid, sy_other);
    proof {
        use_type_invariant(&fv2);
        Ratio::lemma_inv_wf(fv2);
        lemma_ratfn2_congr(f@, x_mid@, sx_mid, y_other@, sy_other);
        lemma_ratfn2_at_wf(f@, x_mid@, y_other@);
        lemma_ratfn2_at_wf(f@, sx_mid, sy_other);
        lemma_eqv_trans(fv2@, ratfn2_at(f@, x_mid@, y_other@), sfv2);
    }
    let out = match axpy(&y_other, &h2, &fv2, Ghost(sy_other), Ghost(sh2), Ghost(sfv2)) {
        Ok(v) => v,
        Err(e) => {
            return Err(e);
        },
    };
    proof {
        use_type_invariant(&out);
        Ratio::lemma_inv_wf(out);
        lemma_ops_wf(sh2, sfv2);
        lemma_ops_wf(sy_other, rat_mul(sh2, sfv2));
    }
    Ok(out)
}

/// Computes the Richardson estimate `|ynext - y_halved| / denom`,
/// pinned to [`richardson_est`].
fn richardson(
    f: &RatFn2,
    p: &Point,
    ynext: &Ratio,
    h: &Ratio,
    denom: i64,
    Ghost(sp): Ghost<PointV>,
    Ghost(synext): Ghost<Rat>,
) -> (r: Result<Ratio, NumError>)
    requires
        ratfn2_wf(f@),
        point_wf(sp),
        point_eqv(p@, sp),
        rat_wf(synext),
        rat_eqv(ynext@, synext),
        denom > 0,
    ensures
        match r {
            Ok(v) => {
                &&& halved_defined(f@, sp, h@)
                &&& rat_eqv(v@, richardson_est(f@, sp, synext, h@, rat_of_int(denom as int)))
            },
            Err(e) => {
                &&& (e == NumError::Overflow || e == NumError::DomainError)
                &&& e == NumError::DomainError ==> !halved_defined(f@, sp, h@)
            },
        },
{
    proof {
        use_type_invariant(h);
        Ratio::lemma_inv_wf(*h);
        use_type_invariant(ynext);
        Ratio::lemma_inv_wf(*ynext);
    }
    let yh = match half_steps_y(f, p, h, Ghost(sp)) {
        Ok(v) => v,
        Err(e) => {
            return Err(e);
        },
    };
    let diff = match ynext.sub(&yh) {
        Ok(v) => v,
        Err(e) => {
            return Err(e);
        },
    };
    let num = match diff.abs() {
        Ok(v) => v,
        Err(e) => {
            return Err(e);
        },
    };
    let dv = Ratio::from_int(denom);
    let out = match num.div(&dv) {
        Ok(v) => v,
        Err(e) => {
            return Err(e);
        },
    };
    proof {
        use_type_invariant(&yh);
        Ratio::lemma_inv_wf(yh);
        use_type_invariant(&diff);
        Ratio::lemma_inv_wf(diff);
        use_type_invariant(&num);
        Ratio::lemma_inv_wf(num);
        use_type_invariant(&out);
        Ratio::lemma_inv_wf(out);
        let shy = step_halved_y(f@, sp, h@);
        lemma_sub_congr(ynext@, synext, yh@, shy);
        lemma_ops_wf(ynext@, yh@);
        lemma_ops_wf(synext, shy);
        lemma_eqv_trans(diff@, rat_sub(ynext@, yh@), rat_sub(synext, shy));
        lemma_abs_congr(diff@, rat_sub(synext, shy));
        lemma_ops_wf(diff@, diff@);
        lemma_ops_wf(rat_sub(synext, shy), rat_sub(synext, shy));
        lemma_eqv_trans(num@, rat_abs(diff@), rat_abs(rat_sub(synext, shy)));
        lemma_div_congr(num@, rat_abs(rat_sub(synext, shy)), dv@, rat_of_int(denom as int));
        lemma_ops_wf(num@, dv@);
        lemma_ops_wf(rat_abs(rat_sub(synext, shy)), rat_of_int(denom as int));
        lemma_eqv_trans(
            out@,
            rat_div(num@, dv@),
            richardson_est(f@, sp, synext, h@, rat_of_int(denom as int)),
        );
    }
    Ok(out)
}

/// One executable Euler step, pinned to [`euler_step`] at the ghost
/// sample `sp`, together with its Richardson estimate (computed, as
/// this exercise family does, with the order-two divisor).
fn euler_step_exec(f: &RatFn2, p: &Point, h: &Ratio, Ghost(sp): Ghost<PointV>) -> (r: Result<
    (Point, Ratio),
    NumError,
>)
    requires
        ratfn2_wf(f@),
        point_wf(sp),
        point_eqv(p@, sp),
    ensures
        match r {
            Ok(v) => {
                &&& ratfn2_defined(f@, sp.x, sp.y)
                &&& halved_defined(f@, sp, h@)
                &&& point_eqv(v.0@, euler_step(f@, sp, h@))
                &&& point_wf(euler_step(f@, sp, h@))
                &&& rat_eqv(
                    v.1@,
                    richardson_est(f@, sp, euler_step(f@, sp, h@).y, h@, rat_of_int(3)),
                )
            },
            Err(e) => {
                &&& (e == NumError::Overflow || e == NumError::DomainError)
                &&& e == NumError::DomainError ==> !(ratfn2_defined(f@, sp.x, sp.y)
                    && halved_defined(f@, sp, h@))
            },
        },
{
    proof {
        use_type_invariant(p);
        Point::lemma_inv_wf(*p);
        use_type_invariant(h);
        Ratio::lemma_inv_wf(*h);
    }
    let fv = match f.eval(&p.x(), &p.y()) {
        Ok(v) => v,
        Err(e) => {
            proof {
                if e == NumError::DomainError {
                    lemma_ratfn2_defined_iff(f@, p@.x, sp.x, p@.y, sp.y);
                }
            }
            return Err(e);
        },
    };
    let ghost sfv = ratfn2_at(f@, sp.x, sp.y);
    proof {
        use_type_invariant(&fv);
        Ratio::lemma_inv_wf(fv);
        lemma_ratfn2_congr(f@, p@.x, sp.x, p@.y, sp.y);
        lemma_ratfn2_at_wf(f@, p@.x, p@.y);
        lemma_ratfn2_at_wf(f@, sp.x, sp.y);
        lemma_eqv_trans(fv@, ratfn2_at(f@, p@.x, p@.y), sfv);
    }
    let ny = match axpy(&p.y(), h, &fv, Ghost(sp.y), Ghost(h@), Ghost(sfv)) {
        Ok(v) => v,
        Err(e) => {
            return Err(e);
        },
    };
    let nx = match p.x().add(h) {
        Ok(v) => v,
        Err(e) => {
            return Err(e);
        },
    };
    proof {
        use_type_invariant(&ny);
        Ratio::lemma_inv_wf(ny);
        use_type_invariant(&nx);
        Ratio::lemma_inv_wf(nx);
        lemma_add_congr(p@.x, sp.x, h@, h@);
        lemma_ops_wf(p@.x, h@);
        lemma_ops_wf(sp.x, h@);
        lemma_eqv_trans(nx@, rat_add(p@.x, h@), rat_add(sp.x, h@));
        lemma_ops_wf(h@, sfv);
        lemma_ops_wf(sp.y, rat_mul(h@, sfv));
    }
    let est = match richardson(f, p, &ny, h, 3, Ghost(sp), Ghost(euler_step(f@, sp, h@).y)) {
        Ok(v) => v,
        Err(e) => {
            return Err(e);
        },
    };
    Ok((Point::new(nx, ny), est))
}

/// A computed trajectory: the samples, and the per-step local error
/// estimates (one per step taken).
pub struct OdeTrajectory {
    /// The samples, starting with the initial point.
    pub points: Vec<Point>,
    /// The Richardson estimate of each step, in step order.
    pub estimates: Vec<Ratio>,
}

/// The Euler method `y_{n+1} = y_n + h * f(x_n, y_n)` from the point
/// `(x0, y0)`, advancing while the abscissa has not passed `right`,
/// with a per-step Richardson estimate and a defensive step cap.
#[verifier::rlimit(100)]
#[verifier::spinoff_prover]
pub fn generate_euler_points(
    f: &RatFn2,
    x0: &Ratio,
    y0: &Ratio,
    h: &Ratio,
    right: &Ratio,
    max_steps: usize,
) -> (r: Result<OdeTrajectory, NumError>)
    ensures
        ({
            let p0 = PointV { x: x0@, y: y0@ };
            match r {
                Ok(t) => {
                    let n = t.points@.len() - 1;
                    &&& t.points@.len() >= 1
                    &&& t.estimates@.len() == n
                    &&& n <= max_steps
                    &&& forall|k: int|
                        0 <= k <= n ==> point_eqv(
                            (#[trigger] t.points@[k])@,
                            euler_iter(f@, p0, h@, k as nat),
                        )
                    &&& forall|k: nat| k < n ==> rat_le(euler_iter(f@, p0, h@, k).x, right@)
                    &&& !rat_le(euler_iter(f@, p0, h@, n as nat).x, right@)
                    &&& forall|k: int|
                        0 <= k < n ==> rat_eqv(
                            (#[trigger] t.estimates@[k])@,
                            richardson_est(
                                f@,
                                euler_iter(f@, p0, h@, k as nat),
                                euler_iter(f@, p0, h@, (k + 1) as nat).y,
                                h@,
                                rat_of_int(3),
                            ),
                        )
                    &&& forall|k: nat|
                        k < n ==> ratfn2_defined(
                            f@,
                            euler_iter(f@, p0, h@, k).x,
                            euler_iter(f@, p0, h@, k).y,
                        )
                },
                Err(e) => {
                    &&& (e == NumError::DidNotConverge || e == NumError::Overflow || e
                        == NumError::DomainError)
                    &&& e == NumError::DidNotConverge ==> forall|k: nat|
                        k < max_steps ==> rat_le(euler_iter(f@, p0, h@, k).x, right@)
                    &&& e == NumError::DomainError ==> exists|k: nat|
                        k < max_steps as nat && !(ratfn2_defined(
                            f@,
                            (#[trigger] euler_iter(f@, p0, h@, k)).x,
                            euler_iter(f@, p0, h@, k).y,
                        ) && halved_defined(f@, euler_iter(f@, p0, h@, k), h@))
                },
            }
        }),
{
    proof {
        use_type_invariant(f);
        RatFn2::lemma_fn_wf(*f);
        use_type_invariant(x0);
        Ratio::lemma_inv_wf(*x0);
        use_type_invariant(y0);
        Ratio::lemma_inv_wf(*y0);
        use_type_invariant(h);
        Ratio::lemma_inv_wf(*h);
        use_type_invariant(right);
        Ratio::lemma_inv_wf(*right);
    }
    let ghost p0 = PointV { x: x0@, y: y0@ };
    let mut cur = Point::new(*x0, *y0);
    let mut points: Vec<Point> = Vec::new();
    let mut estimates: Vec<Ratio> = Vec::new();
    points.push(cur);
    let mut it: usize = 0;
    while it < max_steps
        invariant
            it <= max_steps,
            ratfn2_wf(f@),
            p0 == (PointV { x: x0@, y: y0@ }),
            rat_wf(right@),
            point_wf(euler_iter(f@, p0, h@, it as nat)),
            point_eqv(cur@, euler_iter(f@, p0, h@, it as nat)),
            points@.len() == it + 1,
            estimates@.len() == it as int,
            forall|k: int|
                0 <= k <= it as int ==> point_eqv(
                    (#[trigger] points@[k])@,
                    euler_iter(f@, p0, h@, k as nat),
                ),
            forall|k: nat| k < it as nat ==> rat_le(euler_iter(f@, p0, h@, k).x, right@),
            forall|k: int|
                0 <= k < it as int ==> rat_eqv(
                    (#[trigger] estimates@[k])@,
                    richardson_est(
                        f@,
                        euler_iter(f@, p0, h@, k as nat),
                        euler_iter(f@, p0, h@, (k + 1) as nat).y,
                        h@,
                        rat_of_int(3),
                    ),
                ),
            forall|k: nat|
                k < it as nat ==> ratfn2_defined(
                    f@,
                    euler_iter(f@, p0, h@, k).x,
                    euler_iter(f@, p0, h@, k).y,
                ),
        decreases max_steps - it,
    {
        let ghost sk = euler_iter(f@, p0, h@, it as nat);
        let ghost sk1 = euler_iter(f@, p0, h@, (it + 1) as nat);
        proof {
            use_type_invariant(&cur);
            Point::lemma_inv_wf(cur);
            lemma_cmp_congr(cur@.x, sk.x, right@, right@);
        }
        if !cur.x().le(right) {
            let t = OdeTrajectory { points, estimates };
            return Ok(t);
        }
        let stepped = match euler_step_exec(f, &cur, h, Ghost(sk)) {
            Ok(v) => v,
            Err(e) => {
                proof {
                    if e == NumError::DomainError {
                        assert(!(ratfn2_defined(
                            f@,
                            euler_iter(f@, p0, h@, it as nat).x,
                            euler_iter(f@, p0, h@, it as nat).y,
                        ) && halved_defined(f@, euler_iter(f@, p0, h@, it as nat), h@)));
                    }
                }
                return Err(e);
            },
        };
        proof {
            assert(sk1 == euler_step(f@, sk, h@));
        }
        cur = stepped.0;
        points.push(stepped.0);
        estimates.push(stepped.1);
        it = it + 1;
    }
    proof {
        use_type_invariant(&cur);
        Point::lemma_inv_wf(cur);
        lemma_cmp_congr(cur@.x, euler_iter(f@, p0, h@, it as nat).x, right@, right@);
    }
    if !cur.x().le(right) {
        let t = OdeTrajectory { points, estimates };
        return Ok(t);
    }
    Err(NumError::DidNotConverge)
}

// ---------------------------------------------------------------
// Runge–Kutta (four stages, as this exercise family states them)
// ---------------------------------------------------------------
/// The first stage slope, `k1 = h * f(x, y)`.
pub open spec fn rk_k1(f: RatFn2V, p: PointV, h: Rat) -> Rat {
    rat_mul(h, ratfn2_at(f, p.x, p.y))
}

/// The second stage slope, `k2 = h * f(x + h/4, y + k1/4)`.
pub open spec fn rk_k2(f: RatFn2V, p: PointV, h: Rat) -> Rat {
    rat_mul(
        h,
        ratfn2_at(
            f,
            rat_add(p.x, rat_div(h, rat_of_int(4))),
            rat_add(p.y, rat_div(rk_k1(f, p, h), rat_of_int(4))),
        ),
    )
}

/// The third stage slope, `k3 = h * f(x + h/2, y + k2/2)`.
pub open spec fn rk_k3(f: RatFn2V, p: PointV, h: Rat) -> Rat {
    rat_mul(
        h,
        ratfn2_at(
            f,
            rat_add(p.x, rat_div(h, rat_of_int(2))),
            rat_add(p.y, rat_div(rk_k2(f, p, h), rat_of_int(2))),
        ),
    )
}

/// The fourth stage slope,
/// `k4 = h * f(x + h, y + k1 - 2*k2 + 2*k3)`.
pub open spec fn rk_k4(f: RatFn2V, p: PointV, h: Rat) -> Rat {
    rat_mul(
        h,
        ratfn2_at(
            f,
            rat_add(p.x, h),
            rat_add(
                rat_sub(rat_add(p.y, rk_k1(f, p, h)), rat_mul(rat_of_int(2), rk_k2(f, p, h))),
                rat_mul(rat_of_int(2), rk_k3(f, p, h)),
            ),
        ),
    )
}

/// One step of this exercise family's four-stage scheme:
/// `y_{n+1} = y_n + (1/6) * (k1 + 4*k3 + k4)`, the abscissa
/// advancing by `h`. (These stage offsets and weights are the
/// scheme's definition here, kept exactly as stated.)
pub open spec fn rk_step(f: RatFn2V, p: PointV, h: Rat) -> PointV {
    PointV {
        x: rat_add(p.x, h),
        y: rat_axpy(
            p.y,
            rat_div(rat_of_int(1), rat_of_int(6)),
            rat_add(
                rat_add(rk_k1(f, p, h), rat_mul(rat_of_int(4), rk_k3(f, p, h))),
                rk_k4(f, p, h),
            ),
        ),
    }
}

/// All four stage evaluation points have a nonzero denominator.
pub open spec fn rk_defined(f: RatFn2V, p: PointV, h: Rat) -> bool {
    &&& ratfn2_defined(f, p.x, p.y)
    &&& ratfn2_defined(
        f,
        rat_add(p.x, rat_div(h, rat_of_int(4))),
        rat_add(p.y, rat_div(rk_k1(f, p, h), rat_of_int(4))),
    )
    &&& ratfn2_defined(
        f,
        rat_add(p.x, rat_div(h, rat_of_int(2))),
        rat_add(p.y, rat_div(rk_k2(f, p, h), rat_of_int(2))),
    )
    &&& ratfn2_defined(
        f,
        rat_add(p.x, h),
        rat_add(
            rat_sub(rat_add(p.y, rk_k1(f, p, h)), rat_mul(rat_of_int(2), rk_k2(f, p, h))),
            rat_mul(rat_of_int(2), rk_k3(f, p, h)),
        ),
    )
}

/// The Runge–Kutta iterate after `k` steps from `p0`.
pub open spec fn rk_iter(f: RatFn2V, p0: PointV, h: Rat, k: nat) -> PointV
    decreases k,
{
    if k == 0 {
        p0
    } else {
        rk_step(f, rk_iter(f, p0, h, (k - 1) as nat), h)
    }
}

/// Evaluates `h * f(x + dx, y + dy)` for a stage: the shared shape
/// of all four stage slopes.
fn rk_stage(
    f: &RatFn2,
    p: &Point,
    h: &Ratio,
    dx: &Ratio,
    dy: &Ratio,
    Ghost(sp): Ghost<PointV>,
    Ghost(sdx): Ghost<Rat>,
    Ghost(sdy): Ghost<Rat>,
) -> (r: Result<Ratio, NumError>)
    requires
        ratfn2_wf(f@),
        point_wf(sp),
        point_eqv(p@, sp),
        rat_wf(sdx),
        rat_wf(sdy),
        rat_eqv(dx@, sdx),
        rat_eqv(dy@, sdy),
    ensures
        match r {
            Ok(v) => {
                &&& ratfn2_defined(f@, rat_add(sp.x, sdx), rat_add(sp.y, sdy))
                &&& rat_eqv(
                    v@,
                    rat_mul(h@, ratfn2_at(f@, rat_add(sp.x, sdx), rat_add(sp.y, sdy))),
                )
                &&& rat_wf(rat_mul(h@, ratfn2_at(f@, rat_add(sp.x, sdx), rat_add(sp.y, sdy))))
            },
            Err(e) => {
                &&& (e == NumError::Overflow || e == NumError::DomainError)
                &&& e == NumError::DomainError ==> !ratfn2_defined(
                    f@,
                    rat_add(sp.x, sdx),
                    rat_add(sp.y, sdy),
                )
            },
        },
{
    proof {
        use_type_invariant(p);
        Point::lemma_inv_wf(*p);
        use_type_invariant(h);
        Ratio::lemma_inv_wf(*h);
        use_type_invariant(dx);
        Ratio::lemma_inv_wf(*dx);
        use_type_invariant(dy);
        Ratio::lemma_inv_wf(*dy);
    }
    let xa = match p.x().add(dx) {
        Ok(v) => v,
        Err(e) => {
            return Err(e);
        },
    };
    let ya = match p.y().add(dy) {
        Ok(v) => v,
        Err(e) => {
            return Err(e);
        },
    };
    proof {
        use_type_invariant(&xa);
        Ratio::lemma_inv_wf(xa);
        use_type_invariant(&ya);
        Ratio::lemma_inv_wf(ya);
        lemma_add_congr(p@.x, sp.x, dx@, sdx);
        lemma_ops_wf(p@.x, dx@);
        lemma_ops_wf(sp.x, sdx);
        lemma_eqv_trans(xa@, rat_add(p@.x, dx@), rat_add(sp.x, sdx));
        lemma_add_congr(p@.y, sp.y, dy@, sdy);
        lemma_ops_wf(p@.y, dy@);
        lemma_ops_wf(sp.y, sdy);
        lemma_eqv_trans(ya@, rat_add(p@.y, dy@), rat_add(sp.y, sdy));
    }
    let fv = match f.eval(&xa, &ya) {
        Ok(v) => v,
        Err(e) => {
            proof {
                if e == NumError::DomainError {
                    lemma_ratfn2_defined_iff(f@, xa@, rat_add(sp.x, sdx), ya@, rat_add(sp.y, sdy));
                }
            }
            return Err(e);
        },
    };
    let out = match h.mul(&fv) {
        Ok(v) => v,
        Err(e) => {
            return Err(e);
        },
    };
    proof {
        use_type_invariant(&fv);
        Ratio::lemma_inv_wf(fv);
        use_type_invariant(&out);
        Ratio::lemma_inv_wf(out);
        lemma_ratfn2_congr(f@, xa@, rat_add(sp.x, sdx), ya@, rat_add(sp.y, sdy));
        lemma_ratfn2_at_wf(f@, xa@, ya@);
        lemma_ratfn2_at_wf(f@, rat_add(sp.x, sdx), rat_add(sp.y, sdy));
        lemma_eqv_trans(
            fv@,
            ratfn2_at(f@, xa@, ya@),
            ratfn2_at(f@, rat_add(sp.x, sdx), rat_add(sp.y, sdy)),
        );
        lemma_mul_congr(h@, h@, fv@, ratfn2_at(f@, rat_add(sp.x, sdx), rat_add(sp.y, sdy)));
        lemma_ops_wf(h@, fv@);
        lemma_ops_wf(h@, ratfn2_at(f@, rat_add(sp.x, sdx), rat_add(sp.y, sdy)));
        lemma_eqv_trans(
            out@,
            rat_mul(h@, fv@),
            rat_mul(h@, ratfn2_at(f@, rat_add(sp.x, sdx), rat_add(sp.y, sdy))),
        );
    }
    Ok(out)
}

/// One executable Runge–Kutta step, pinned to [`rk_step`] at the
/// ghost sample `sp`, with its Richardson estimate (order-four
/// divisor).
#[verifier::rlimit(100)]
#[verifier::spinoff_prover]
fn rk_step_exec(f: &RatFn2, p: &Point, h: &Ratio, Ghost(sp): Ghost<PointV>) -> (r: Result<
    (Point, Ratio),
    NumError,
>)
    requires
        ratfn2_wf(f@),
        point_wf(sp),
        point_eqv(p@, sp),
    ensures
        match r {
            Ok(v) => {
                &&& rk_defined(f@, sp, h@)
                &&& halved_defined(f@, sp, h@)
                &&& point_eqv(v.0@, rk_step(f@, sp, h@))
                &&& point_wf(rk_step(f@, sp, h@))
                &&& rat_eqv(
                    v.1@,
                    richardson_est(f@, sp, rk_step(f@, sp, h@).y, h@, rat_of_int(15)),
                )
            },
            Err(e) => {
                &&& (e == NumError::Overflow || e == NumError::DomainError)
                &&& e == NumError::DomainError ==> !(rk_defined(f@, sp, h@) && halved_defined(
                    f@,
                    sp,
                    h@,
                ))
            },
        },
{
    proof {
        use_type_invariant(p);
        Point::lemma_inv_wf(*p);
        use_type_invariant(h);
        Ratio::lemma_inv_wf(*h);
    }
    let zero = Ratio::from_int(0);
    let two = Ratio::from_int(2);
    let four = Ratio::from_int(4);
    let ghost sk1 = rk_k1(f@, sp, h@);
    let ghost sk2 = rk_k2(f@, sp, h@);
    let ghost sk3 = rk_k3(f@, sp, h@);
    let ghost sk4 = rk_k4(f@, sp, h@);
    // k1 = h * f(x + 0, y + 0)
    let k1v = match rk_stage(f, p, h, &zero, &zero, Ghost(sp), Ghost(rat_of_int(0)), Ghost(
        rat_of_int(0),
    )) {
        Ok(v) => v,
        Err(e) => {
            proof {
                if e == NumError::DomainError {
                    lemma_ops_wf(sp.x, rat_of_int(0));
                    lemma_ops_wf(sp.y, rat_of_int(0));
                    crate::rat::lemma_add_zero(sp.x);
                    crate::rat::lemma_add_zero(sp.y);
                    lemma_ratfn2_defined_iff(
                        f@,
                        rat_add(sp.x, rat_of_int(0)),
                        sp.x,
                        rat_add(sp.y, rat_of_int(0)),
                        sp.y,
                    );
                }
            }
            return Err(e);
        },
    };
    proof {
        use_type_invariant(&k1v);
        Ratio::lemma_inv_wf(k1v);
        lemma_ops_wf(sp.x, rat_of_int(0));
        lemma_ops_wf(sp.y, rat_of_int(0));
        crate::rat::lemma_add_zero(sp.x);
        crate::rat::lemma_add_zero(sp.y);
        lemma_ratfn2_congr(f@, rat_add(sp.x, rat_of_int(0)), sp.x, rat_add(sp.y, rat_of_int(0)), sp.y);
        lemma_ratfn2_at_wf(f@, rat_add(sp.x, rat_of_int(0)), rat_add(sp.y, rat_of_int(0)));
        lemma_ratfn2_at_wf(f@, sp.x, sp.y);
        lemma_mul_congr(
            h@,
            h@,
            ratfn2_at(f@, rat_add(sp.x, rat_of_int(0)), rat_add(sp.y, rat_of_int(0))),
            ratfn2_at(f@, sp.x, sp.y),
        );
        lemma_ops_wf(h@, ratfn2_at(f@, rat_add(sp.x, rat_of_int(0)), rat_add(sp.y, rat_of_int(0))));
        lemma_ops_wf(h@, ratfn2_at(f@, sp.x, sp.y));
        lemma_eqv_trans(
            k1v@,
            rat_mul(h@, ratfn2_at(f@, rat_add(sp.x, rat_of_int(0)), rat_add(sp.y, rat_of_int(0)))),
            sk1,
        );
    }
    // k2 = h * f(x + h/4, y + k1/4)
    let h4 = match h.div(&four) {
        Ok(v) => v,
        Err(e) => {
            return Err(e);
        },
    };
    let k1q = match k1v.div(&four) {
        Ok(v) => v,
        Err(e) => {
            return Err(e);
        },
    };
    proof {
        use_type_invariant(&h4);
        Ratio::lemma_inv_wf(h4);
        use_type_invariant(&k1q);
        Ratio::lemma_inv_wf(k1q);
        lemma_ops_wf(h@, rat_of_int(4));
        lemma_div_congr(k1v@, sk1, four@, rat_of_int(4));
        lemma_ops_wf(k1v@, four@);
        lemma_ops_wf(sk1, rat_of_int(4));
        lemma_eqv_trans(k1q@, rat_div(k1v@, four@), rat_div(sk1, rat_of_int(4)));
    }
    let k2v = match rk_stage(f, p, h, &h4, &k1q, Ghost(sp), Ghost(rat_div(h@, rat_of_int(4))),
        Ghost(rat_div(sk1, rat_of_int(4)))) {
        Ok(v) => v,
        Err(e) => {
            return Err(e);
        },
    };
    proof {
        use_type_invariant(&k2v);
        Ratio::lemma_inv_wf(k2v);
        assert(rat_eqv(k2v@, sk2));
        assert(rat_wf(sk2));
    }
    // k3 = h * f(x + h/2, y + k2/2)
    let h2 = match h.div(&two) {
        Ok(v) => v,
        Err(e) => {
            return Err(e);
        },
    };
    let k2q = match k2v.div(&two) {
        Ok(v) => v,
        Err(e) => {
            return Err(e);
        },
    };
    proof {
        use_type_invariant(&h2);
        Ratio::lemma_inv_wf(h2);
        use_type_invariant(&k2q);
        Ratio::lemma_inv_wf(k2q);
        lemma_ops_wf(h@, rat_of_int(2));
        lemma_div_congr(k2v@, sk2, two@, rat_of_int(2));
        lemma_ops_wf(k2v@, two@);
        lemma_ops_wf(sk2, rat_of_int(2));
        lemma_eqv_trans(k2q@, rat_div(k2v@, two@), rat_div(sk2, rat_of_int(2)));
    }
    let k3v = match rk_stage(f, p, h, &h2, &k2q, Ghost(sp), Ghost(rat_div(h@, rat_of_int(2))),
        Ghost(rat_div(sk2, rat_of_int(2)))) {
        Ok(v) => v,
        Err(e) => {
            return Err(e);
        },
    };
    proof {
        use_type_invariant(&k3v);
        Ratio::lemma_inv_wf(k3v);
        assert(rat_eqv(k3v@, sk3));
        assert(rat_wf(sk3));
    }
    // k4 = h * f(x + h, y + (k1 - 2*k2 + 2*k3))
    let t2 = match two.mul(&k2v) {
        Ok(v) => v,
        Err(e) => {
            return Err(e);
        },
    };
    let t3 = match two.mul(&k3v) {
        Ok(v) => v,
        Err(e) => {
            return Err(e);
        },
    };
    let d1 = match k1v.sub(&t2) {
        Ok(v) => v,
        Err(e) => {
            return Err(e);
        },
    };
    let dy4 = match d1.add(&t3) {
        Ok(v) => v,
        Err(e) => {
            return Err(e);
        },
    };
    let ghost sdy4 = rat_add(rat_sub(sk1, rat_mul(rat_of_int(2), sk2)), rat_mul(rat_of_int(2), sk3));
    proof {
        use_type_invariant(&t2);
        Ratio::lemma_inv_wf(t2);
        use_type_invariant(&t3);
        Ratio::lemma_inv_wf(t3);
        use_type_invariant(&d1);
        Ratio::lemma_inv_wf(d1);
        use_type_invariant(&dy4);
        Ratio::lemma_inv_wf(dy4);
        lemma_mul_congr(two@, rat_of_int(2), k2v@, sk2);
        lemma_ops_wf(two@, k2v@);
        lemma_ops_wf(rat_of_int(2), sk2);
        lemma_eqv_trans(t2@, rat_mul(two@, k2v@), rat_mul(rat_of_int(2), sk2));
        lemma_mul_congr(two@, rat_of_int(2), k3v@, sk3);
        lemma_ops_wf(two@, k3v@);
        lemma_ops_wf(rat_of_int(2), sk3);
        lemma_eqv_trans(t3@, rat_mul(two@, k3v@), rat_mul(rat_of_int(2), sk3));
        lemma_sub_congr(k1v@, sk1, t2@, rat_mul(rat_of_int(2), sk2));
        lemma_ops_wf(k1v@, t2@);
        lemma_ops_wf(sk1, rat_mul(rat_of_int(2), sk2));
        lemma_eqv_trans(d1@, rat_sub(k1v@, t2@), rat_sub(sk1, rat_mul(rat_of_int(2), sk2)));
        lemma_add_congr(d1@, rat_sub(sk1, rat_mul(rat_of_int(2), sk2)), t3@, rat_mul(
            rat_of_int(2),
            sk3,
        ));
        lemma_ops_wf(d1@, t3@);
        lemma_ops_wf(rat_sub(sk1, rat_mul(rat_of_int(2), sk2)), rat_mul(rat_of_int(2), sk3));
        lemma_eqv_trans(dy4@, rat_add(d1@, t3@), sdy4);
    }
    let k4v = match rk_stage(f, p, h, h, &dy4, Ghost(sp), Ghost(h@), Ghost(sdy4)) {
        Ok(v) => v,
        Err(e) => {
            proof {
                if e == NumError::DomainError {
                    let y4a = rat_add(sp.y, sdy4);
                    let y4b = rat_add(
                        rat_sub(rat_add(sp.y, sk1), rat_mul(rat_of_int(2), sk2)),
                        rat_mul(rat_of_int(2), sk3),
                    );
                    lemma_rk4_point_shift(sp.y, sk1, sk2, sk3);
                    lemma_ops_wf(sp.x, h@);
                    lemma_ops_wf(sp.y, sdy4);
                    lemma_ops_wf(sp.y, sk1);
                    lemma_ops_wf(rat_add(sp.y, sk1), rat_mul(rat_of_int(2), sk2));
                    lemma_ops_wf(
                        rat_sub(rat_add(sp.y, sk1), rat_mul(rat_of_int(2), sk2)),
                        rat_mul(rat_of_int(2), sk3),
                    );
                    lemma_ratfn2_defined_iff(f@, rat_add(sp.x, h@), rat_add(sp.x, h@), y4a, y4b);
                }
            }
            return Err(e);
        },
    };
    proof {
        use_type_invariant(&k4v);
        Ratio::lemma_inv_wf(k4v);
        let y4a = rat_add(sp.y, sdy4);
        let y4b = rat_add(
            rat_sub(rat_add(sp.y, sk1), rat_mul(rat_of_int(2), sk2)),
            rat_mul(rat_of_int(2), sk3),
        );
        lemma_rk4_point_shift(sp.y, sk1, sk2, sk3);
        lemma_ops_wf(sp.x, h@);
        lemma_ops_wf(sp.y, sdy4);
        lemma_ops_wf(sp.y, sk1);
        lemma_ops_wf(rat_add(sp.y, sk1), rat_mul(rat_of_int(2), sk2));
        lemma_ops_wf(
            rat_sub(rat_add(sp.y, sk1), rat_mul(rat_of_int(2), sk2)),
            rat_mul(rat_of_int(2), sk3),
        );
        lemma_ratfn2_congr(f@, rat_add(sp.x, h@), rat_add(sp.x, h@), y4a, y4b);
        lemma_ratfn2_at_wf(f@, rat_add(sp.x, h@), y4a);
        lemma_ratfn2_at_wf(f@, rat_add(sp.x, h@), y4b);
        lemma_mul_congr(
            h@,
            h@,
            ratfn2_at(f@, rat_add(sp.x, h@), y4a),
            ratfn2_at(f@, rat_add(sp.x, h@), y4b),
        );
        lemma_ops_wf(h@, ratfn2_at(f@, rat_add(sp.x, h@), y4a));
        lemma_ops_wf(h@, ratfn2_at(f@, rat_add(sp.x, h@), y4b));
        lemma_eqv_trans(k4v@, rat_mul(h@, ratfn2_at(f@, rat_add(sp.x, h@), y4a)), sk4);
        assert(rat_eqv(k4v@, sk4));
        assert(rat_wf(sk4));
    }
    // y' = y + (1/6) * (k1 + 4*k3 + k4)
    let s1 = match four.mul(&k3v) {
        Ok(v) => v,
        Err(e) => {
            return Err(e);
        },
    };
    let s2 = match k1v.add(&s1) {
        Ok(v) => v,
        Err(e) => {
            return Err(e);
        },
    };
    let s3 = match s2.add(&k4v) {
        Ok(v) => v,
        Err(e) => {
            return Err(e);
        },
    };
    let six = Ratio::from_int(6);
    let one = Ratio::from_int(1);
    let sixth = match one.div(&six) {
        Ok(v) => v,
        Err(e) => {
            return Err(e);
        },
    };
    let ghost ssum = rat_add(rat_add(sk1, rat_mul(rat_of_int(4), sk3)), sk4);
    proof {
        use_type_invariant(&s1);
        Ratio::lemma_inv_wf(s1);
        use_type_invariant(&s2);
        Ratio::lemma_inv_wf(s2);
        use_type_invariant(&s3);
        Ratio::lemma_inv_wf(s3);
        use_type_invariant(&sixth);
        Ratio::lemma_inv_wf(sixth);
        lemma_mul_congr(four@, rat_of_int(4), k3v@, sk3);
        lemma_ops_wf(four@, k3v@);
        lemma_ops_wf(rat_of_int(4), sk3);
        lemma_eqv_trans(s1@, rat_mul(four@, k3v@), rat_mul(rat_of_int(4), sk3));
        lemma_add_congr(k1v@, sk1, s1@, rat_mul(rat_of_int(4), sk3));
        lemma_ops_wf(k1v@, s1@);
        lemma_ops_wf(sk1, rat_mul(rat_of_int(4), sk3));
        lemma_eqv_trans(s2@, rat_add(k1v@, s1@), rat_add(sk1, rat_mul(rat_of_int(4), sk3)));
        lemma_add_congr(s2@, rat_add(sk1, rat_mul(rat_of_int(4), sk3)), k4v@, sk4);
        lemma_ops_wf(s2@, k4v@);
        lemma_ops_wf(rat_add(sk1, rat_mul(rat_of_int(4), sk3)), sk4);
        lemma_eqv_trans(s3@, rat_add(s2@, k4v@), ssum);
        lemma_ops_wf(rat_of_int(1), rat_of_int(6));
    }
    let ny = match axpy(
        &p.y(),
        &sixth,
        &s3,
        Ghost(sp.y),
        Ghost(rat_div(rat_of_int(1), rat_of_int(6))),
        Ghost(ssum),
    ) {
        Ok(v) => v,
        Err(e) => {
            return Err(e);
        },
    };
    let nx = match p.x().add(h) {
        Ok(v) => v,
        Err(e) => {
            return Err(e);
        },
    };
    proof {
        use_type_invariant(&ny);
        Ratio::lemma_inv_wf(ny);
        use_type_invariant(&nx);
        Ratio::lemma_inv_wf(nx);
        lemma_ops_wf(ssum, ssum);
        lemma_ops_wf(rat_div(rat_of_int(1), rat_of_int(6)), ssum);
        lemma_ops_wf(sp.y, rat_mul(rat_div(rat_of_int(1), rat_of_int(6)), ssum));
        lemma_add_congr(p@.x, sp.x, h@, h@);
        lemma_ops_wf(p@.x, h@);
        lemma_ops_wf(sp.x, h@);
        lemma_eqv_trans(nx@, rat_add(p@.x, h@), rat_add(sp.x, h@));
    }
    let est = match richardson(f, p, &ny, h, 15, Ghost(sp), Ghost(rk_step(f@, sp, h@).y)) {
        Ok(v) => v,
        Err(e) => {
            return Err(e);
        },
    };
    Ok((Point::new(nx, ny), est))
}

/// Shifting the base ordinate through the stage combination:
/// `y + ((k1 - 2*k2) + 2*k3)` and `((y + k1) - 2*k2) + 2*k3` denote
/// the same value.
proof fn lemma_rk4_point_shift(y: Rat, k1: Rat, k2: Rat, k3: Rat)
    requires
        rat_wf(y),
        rat_wf(k1),
        rat_wf(k2),
        rat_wf(k3),
    ensures
        rat_eqv(
            rat_add(
                y,
                rat_add(rat_sub(k1, rat_mul(rat_of_int(2), k2)), rat_mul(rat_of_int(2), k3)),
            ),
            rat_add(
                rat_sub(rat_add(y, k1), rat_mul(rat_of_int(2), k2)),
                rat_mul(rat_of_int(2), k3),
            ),
        ),
{
    let u = rat_sub(k1, rat_mul(rat_of_int(2), k2));
    let w = rat_mul(rat_of_int(2), k3);
    lemma_ops_wf(rat_of_int(2), k2);
    lemma_ops_wf(rat_of_int(2), k3);
    lemma_ops_wf(k1, rat_mul(rat_of_int(2), k2));
    crate::rat::lemma_add_assoc(y, u, w);
    crate::rat::lemma_add_sub_shift(y, k1, rat_mul(rat_of_int(2), k2));
    lemma_ops_wf(y, u);
    lemma_ops_wf(u, w);
    lemma_ops_wf(y, rat_add(u, w));
    lemma_ops_wf(y, k1);
    lemma_ops_wf(rat_add(y, k1), rat_mul(rat_of_int(2), k2));
    lemma_add_congr(rat_add(y, u), rat_sub(rat_add(y, k1), rat_mul(rat_of_int(2), k2)), w, w);
    lemma_ops_wf(rat_add(y, u), w);
    lemma_ops_wf(rat_sub(rat_add(y, k1), rat_mul(rat_of_int(2), k2)), w);
    lemma_eqv_trans(
        rat_add(y, rat_add(u, w)),
        rat_add(rat_add(y, u), w),
        rat_add(rat_sub(rat_add(y, k1), rat_mul(rat_of_int(2), k2)), w),
    );
}

/// The four-stage Runge–Kutta scheme from the point `(x0, y0)`,
/// advancing while the abscissa has not passed `right`, with a
/// per-step Richardson estimate and a defensive step cap. The same
/// inputs always produce exactly the same trajectory: every sample
/// is pinned to [`rk_iter`].
#[verifier::rlimit(100)]
#[verifier::spinoff_prover]
pub fn generate_runge_kutta_points(
    f: &RatFn2,
    x0: &Ratio,
    y0: &Ratio,
    h: &Ratio,
    right: &Ratio,
    max_steps: usize,
) -> (r: Result<OdeTrajectory, NumError>)
    ensures
        ({
            let p0 = PointV { x: x0@, y: y0@ };
            match r {
                Ok(t) => {
                    let n = t.points@.len() - 1;
                    &&& t.points@.len() >= 1
                    &&& t.estimates@.len() == n
                    &&& n <= max_steps
                    &&& forall|k: int|
                        0 <= k <= n ==> point_eqv(
                            (#[trigger] t.points@[k])@,
                            rk_iter(f@, p0, h@, k as nat),
                        )
                    &&& forall|k: nat| k < n ==> rat_le(rk_iter(f@, p0, h@, k).x, right@)
                    &&& !rat_le(rk_iter(f@, p0, h@, n as nat).x, right@)
                    &&& forall|k: int|
                        0 <= k < n ==> rat_eqv(
                            (#[trigger] t.estimates@[k])@,
                            richardson_est(
                                f@,
                                rk_iter(f@, p0, h@, k as nat),
                                rk_iter(f@, p0, h@, (k + 1) as nat).y,
                                h@,
                                rat_of_int(15),
                            ),
                        )
                    &&& forall|k: nat| k < n ==> rk_defined(f@, rk_iter(f@, p0, h@, k), h@)
                },
                Err(e) => {
                    &&& (e == NumError::DidNotConverge || e == NumError::Overflow || e
                        == NumError::DomainError)
                    &&& e == NumError::DidNotConverge ==> forall|k: nat|
                        k < max_steps ==> rat_le(rk_iter(f@, p0, h@, k).x, right@)
                    &&& e == NumError::DomainError ==> exists|k: nat|
                        k < max_steps as nat && !(rk_defined(
                            f@,
                            #[trigger] rk_iter(f@, p0, h@, k),
                            h@,
                        ) && halved_defined(f@, rk_iter(f@, p0, h@, k), h@))
                },
            }
        }),
{
    proof {
        use_type_invariant(f);
        RatFn2::lemma_fn_wf(*f);
        use_type_invariant(x0);
        Ratio::lemma_inv_wf(*x0);
        use_type_invariant(y0);
        Ratio::lemma_inv_wf(*y0);
        use_type_invariant(h);
        Ratio::lemma_inv_wf(*h);
        use_type_invariant(right);
        Ratio::lemma_inv_wf(*right);
    }
    let ghost p0 = PointV { x: x0@, y: y0@ };
    let mut cur = Point::new(*x0, *y0);
    let mut points: Vec<Point> = Vec::new();
    let mut estimates: Vec<Ratio> = Vec::new();
    points.push(cur);
    let mut it: usize = 0;
    while it < max_steps
        invariant
            it <= max_steps,
            ratfn2_wf(f@),
            p0 == (PointV { x: x0@, y: y0@ }),
            rat_wf(right@),
            point_wf(rk_iter(f@, p0, h@, it as nat)),
            point_eqv(cur@, rk_iter(f@, p0, h@, it as nat)),
            points@.len() == it + 1,
            estimates@.len() == it as int,
            forall|k: int|
                0 <= k <= it as int ==> point_eqv(
                    (#[trigger] points@[k])@,
                    rk_iter(f@, p0, h@, k as nat),
                ),
            forall|k: nat| k < it as nat ==> rat_le(rk_iter(f@, p0, h@, k).x, right@),
            forall|k: int|
                0 <= k < it as int ==> rat_eqv(
                    (#[trigger] estimates@[k])@,
                    richardson_est(
                        f@,
                        rk_iter(f@, p0, h@, k as nat),
                        rk_iter(f@, p0, h@, (k + 1) as nat).y,
                        h@,
                        rat_of_int(15),
                    ),
                ),
            forall|k: nat| k < it as nat ==> rk_defined(f@, rk_iter(f@, p0, h@, k), h@),
        decreases max_steps - it,
    {
        let ghost sk = rk_iter(f@, p0, h@, it as nat);
        let ghost sk1 = rk_iter(f@, p0, h@, (it + 1) as nat);
        proof {
            use_type_invariant(&cur);
            Point::lemma_inv_wf(cur);
            lemma_cmp_congr(cur@.x, sk.x, right@, right@);
        }
        if !cur.x().le(right) {
            let t = OdeTrajectory { points, estimates };
            return Ok(t);
        }
        let stepped = match rk_step_exec(f, &cur, h, Ghost(sk)) {
            Ok(v) => v,
            Err(e) => {
                proof {
                    if e == NumError::DomainError {
                        assert(!(rk_defined(f@, rk_iter(f@, p0, h@, it as nat), h@)
                            && halved_defined(f@, rk_iter(f@, p0, h@, it as nat), h@)));
                    }
                }
                return Err(e);
            },
        };
        proof {
            assert(sk1 == rk_step(f@, sk, h@));
        }
        cur = stepped.0;
        points.push(stepped.0);
        estimates.push(stepped.1);
        it = it + 1;
    }
    proof {
        use_type_invariant(&cur);
        Point::lemma_inv_wf(cur);
        lemma_cmp_congr(cur@.x, rk_iter(f@, p0, h@, it as nat).x, right@, right@);
    }
    if !cur.x().le(right) {
        let t = OdeTrajectory { points, estimates };
        return Ok(t);
    }
    Err(NumError::DidNotConverge)
}

// ---------------------------------------------------------------
// Adams–Bashforth (four-step predictor)
// ---------------------------------------------------------------
/// The sliding window of the four latest samples; `d` is the most
/// recent.
pub ghost struct WindowV {
    pub a: PointV,
    pub b: PointV,
    pub c: PointV,
    pub d: PointV,
}

/// All four window samples are well-formed.
pub open spec fn window_wf(w: WindowV) -> bool {
    point_wf(w.a) && point_wf(w.b) && point_wf(w.c) && point_wf(w.d)
}

/// The right-hand side has a nonzero denominator at all four window
/// samples.
pub open spec fn adams_defined(f: RatFn2V, w: WindowV) -> bool {
    &&& ratfn2_defined(f, w.a.x, w.a.y)
    &&& ratfn2_defined(f, w.b.x, w.b.y)
    &&& ratfn2_defined(f, w.c.x, w.c.y)
    &&& ratfn2_defined(f, w.d.x, w.d.y)
}

/// The predicted ordinate:
/// `y_{n+1} = y_n + h/24 * (55 f_n - 59 f_{n-1} + 37 f_{n-2} - 9 f_{n-3})`.
pub open spec fn adams_y(f: RatFn2V, w: WindowV, h: Rat) -> Rat {
    let s = rat_sub(
        rat_add(
            rat_sub(
                rat_mul(rat_of_int(55), ratfn2_at(f, w.d.x, w.d.y)),
                rat_mul(rat_of_int(59), ratfn2_at(f, w.c.x, w.c.y)),
            ),
            rat_mul(rat_of_int(37), ratfn2_at(f, w.b.x, w.b.y)),
        ),
        rat_mul(rat_of_int(9), ratfn2_at(f, w.a.x, w.a.y)),
    );
    rat_axpy(w.d.y, rat_div(h, rat_of_int(24)), s)
}

/// One predictor step: the window slides forward by one sample.
pub open spec fn adams_step(f: RatFn2V, w: WindowV, h: Rat) -> WindowV {
    WindowV {
        a: w.b,
        b: w.c,
        c: w.d,
        d: PointV { x: rat_add(w.d.x, h), y: adams_y(f, w, h) },
    }
}

/// The window after `k` predictor steps.
pub open spec fn adams_iter(f: RatFn2V, w0: WindowV, h: Rat, k: nat) -> WindowV
    decreases k,
{
    if k == 0 {
        w0
    } else {
        adams_step(f, adams_iter(f, w0, h, (k - 1) as nat), h)
    }
}

/// Evaluates `c * f(p)` for a window sample: the shared shape of the
/// four predictor terms.
fn adams_term(
    f: &RatFn2,
    c: i64,
    p: &Point,
    Ghost(sp): Ghost<PointV>,
) -> (r: Result<Ratio, NumError>)
    requires
        ratfn2_wf(f@),
        point_wf(sp),
        point_eqv(p@, sp),
    ensures
        match r {
            Ok(v) => {
                &&& ratfn2_defined(f@, sp.x, sp.y)
                &&& rat_eqv(v@, rat_mul(rat_of_int(c as int), ratfn2_at(f@, sp.x, sp.y)))
                &&& rat_wf(rat_mul(rat_of_int(c as int), ratfn2_at(f@, sp.x, sp.y)))
            },
            Err(e) => {
                &&& (e == NumError::Overflow || e == NumError::DomainError)
                &&& e == NumError::DomainError ==> !ratfn2_defined(f@, sp.x, sp.y)
            },
        },
{
    proof {
        use_type_invariant(p);
        Point::lemma_inv_wf(*p);
    }
    let fv = match f.eval(&p.x(), &p.y()) {
        Ok(v) => v,
        Err(e) => {
            proof {
                if e == NumError::DomainError {
                    lemma_ratfn2_defined_iff(f@, p@.x, sp.x, p@.y, sp.y);
                }
            }
            return Err(e);
        },
    };
    let cv = Ratio::from_int(c);
    let out = match cv.mul(&fv) {
        Ok(v) => v,
        Err(e) => {
            return Err(e);
        },
    };
    proof {
        use_type_invariant(&fv);
        Ratio::lemma_inv_wf(fv);
        use_type_invariant(&out);
        Ratio::lemma_inv_wf(out);
        lemma_ratfn2_congr(f@, p@.x, sp.x, p@.y, sp.y);
        lemma_ratfn2_at_wf(f@, p@.x, p@.y);
        lemma_ratfn2_at_wf(f@, sp.x, sp.y);
        lemma_eqv_trans(fv@, ratfn2_at(f@, p@.x, p@.y), ratfn2_at(f@, sp.x, sp.y));
        lemma_mul_congr(cv@, rat_of_int(c as int), fv@, ratfn2_at(f@, sp.x, sp.y));
        lemma_ops_wf(cv@, fv@);
        lemma_ops_wf(rat_of_int(c as int), ratfn2_at(f@, sp.x, sp.y));
        lemma_eqv_trans(
            out@,
            rat_mul(cv@, fv@),
            rat_mul(rat_of_int(c as int), ratfn2_at(f@, sp.x, sp.y)),
        );
    }
    Ok(out)
}

/// One executable predictor step: computes the new sample from the
/// current window, pinned to [`adams_step`] at the ghost window `sw`.
#[verifier::rlimit(100)]
#[verifier::spinoff_prover]
fn adams_step_exec(
    f: &RatFn2,
    wa: &Point,
    wb: &Point,
    wc: &Point,
    wd: &Point,
    h: &Ratio,
    Ghost(sw): Ghost<WindowV>,
) -> (r: Result<Point, NumError>)
    requires
        ratfn2_wf(f@),
        window_wf(sw),
        point_eqv(wa@, sw.a),
        point_eqv(wb@, sw.b),
        point_eqv(wc@, sw.c),
        point_eqv(wd@, sw.d),
    ensures
        match r {
            Ok(p) => {
                &&& adams_defined(f@, sw)
                &&& point_eqv(p@, adams_step(f@, sw, h@).d)
                &&& point_wf(adams_step(f@, sw, h@).d)
            },
            Err(e) => {
                &&& (e == NumError::Overflow || e == NumError::DomainError)
                &&& e == NumError::DomainError ==> !adams_defined(f@, sw)
            },
        },
{
    proof {
        use_type_invariant(wd);
        Point::lemma_inv_wf(*wd);
        use_type_invariant(h);
        Ratio::lemma_inv_wf(*h);
    }
    let td = match adams_term(f, 55, wd, Ghost(sw.d)) {
        Ok(v) => v,
        Err(e) => {
            return Err(e);
        },
    };
    let tc = match adams_term(f, 59, wc, Ghost(sw.c)) {
        Ok(v) => v,
        Err(e) => {
            return Err(e);
        },
    };
    let tb = match adams_term(f, 37, wb, Ghost(sw.b)) {
        Ok(v) => v,
        Err(e) => {
            return Err(e);
        },
    };
    let ta = match adams_term(f, 9, wa, Ghost(sw.a)) {
        Ok(v) => v,
        Err(e) => {
            return Err(e);
        },
    };
    let ghost std_ = rat_mul(rat_of_int(55), ratfn2_at(f@, sw.d.x, sw.d.y));
    let ghost stc = rat_mul(rat_of_int(59), ratfn2_at(f@, sw.c.x, sw.c.y));
    let ghost stb = rat_mul(rat_of_int(37), ratfn2_at(f@, sw.b.x, sw.b.y));
    let ghost sta = rat_mul(rat_of_int(9), ratfn2_at(f@, sw.a.x, sw.a.y));
    let u1 = match td.sub(&tc) {
        Ok(v) => v,
        Err(e) => {
            return Err(e);
        },
    };
    let u2 = match u1.add(&tb) {
        Ok(v) => v,
        Err(e) => {
            return Err(e);
        },
    };
    let u3 = match u2.sub(&ta) {
        Ok(v) => v,
        Err(e) => {
            return Err(e);
        },
    };
    let ghost ssum = rat_sub(rat_add(rat_sub(std_, stc), stb), sta);
    proof {
        use_type_invariant(&td);
        Ratio::lemma_inv_wf(td);
        use_type_invariant(&tc);
        Ratio::lemma_inv_wf(tc);
        use_type_invariant(&tb);
        Ratio::lemma_inv_wf(tb);
        use_type_invariant(&ta);
        Ratio::lemma_inv_wf(ta);
        use_type_invariant(&u1);
        Ratio::lemma_inv_wf(u1);
        use_type_invariant(&u2);
        Ratio::lemma_inv_wf(u2);
        use_type_invariant(&u3);
        Ratio::lemma_inv_wf(u3);
        lemma_sub_congr(td@, std_, tc@, stc);
        lemma_ops_wf(td@, tc@);
        lemma_ops_wf(std_, stc);
        lemma_eqv_trans(u1@, rat_sub(td@, tc@), rat_sub(std_, stc));
        lemma_add_congr(u1@, rat_sub(std_, stc), tb@, stb);
        lemma_ops_wf(u1@, tb@);
        lemma_ops_wf(rat_sub(std_, stc), stb);
        lemma_eqv_trans(u2@, rat_add(u1@, tb@), rat_add(rat_sub(std_, stc), stb));
        lemma_sub_congr(u2@, rat_add(rat_sub(std_, stc), stb), ta@, sta);
        lemma_ops_wf(u2@, ta@);
        lemma_ops_wf(rat_add(rat_sub(std_, stc), stb), sta);
        lemma_eqv_trans(u3@, rat_sub(u2@, ta@), ssum);
        lemma_ops_wf(h@, rat_of_int(24));
        lemma_ops_wf(ssum, ssum);
    }
    let tf = Ratio::from_int(24);
    let h24 = match h.div(&tf) {
        Ok(v) => v,
        Err(e) => {
            return Err(e);
        },
    };
    let ny = match axpy(
        &wd.y(),
        &h24,
        &u3,
        Ghost(sw.d.y),
        Ghost(rat_div(h@, rat_of_int(24))),
        Ghost(ssum),
    ) {
        Ok(v) => v,
        Err(e) => {
            return Err(e);
        },
    };
    let nx = match wd.x().add(h) {
        Ok(v) => v,
        Err(e) => {
            return Err(e);
        },
    };
    proof {
        use_type_invariant(&ny);
        Ratio::lemma_inv_wf(ny);
        use_type_invariant(&nx);
        Ratio::lemma_inv_wf(nx);
        lemma_add_congr(wd@.x, sw.d.x, h@, h@);
        lemma_ops_wf(wd@.x, h@);
        lemma_ops_wf(sw.d.x, h@);
        lemma_eqv_trans(nx@, rat_add(wd@.x, h@), rat_add(sw.d.x, h@));
        lemma_ops_wf(rat_div(h@, rat_of_int(24)), ssum);
        lemma_ops_wf(sw.d.y, rat_mul(rat_div(h@, rat_of_int(24)), ssum));
    }
    Ok(Point::new(nx, ny))
}

/// The four-step Adams–Bashforth predictor, bootstrapped from four
/// given samples (conventionally the first four Runge–Kutta
/// samples), advancing while the latest abscissa has not passed
/// `right`, with a defensive step cap. A bootstrap of any other
/// length is a [`NumError::DomainError`].
#[verifier::rlimit(100)]
#[verifier::spinoff_prover]
pub fn generate_adams_points(
    f: &RatFn2,
    bootstrap: &Vec<Point>,
    h: &Ratio,
    right: &Ratio,
    max_steps: usize,
) -> (r: Result<Vec<Point>, NumError>)
    ensures
        bootstrap@.len() != 4 ==> r == Result::<Vec<Point>, NumError>::Err(NumError::DomainError),
        bootstrap@.len() == 4 ==> ({
            let w0 = WindowV {
                a: bootstrap@[0]@,
                b: bootstrap@[1]@,
                c: bootstrap@[2]@,
                d: bootstrap@[3]@,
            };
            match r {
                Ok(v) => {
                    let n = v@.len() - 4;
                    &&& v@.len() >= 4
                    &&& n <= max_steps
                    &&& forall|i: int| 0 <= i < 4 ==> (#[trigger] v@[i])@ == bootstrap@[i]@
                    &&& forall|k: int|
                        0 <= k < n ==> point_eqv(
                            (#[trigger] v@[4 + k])@,
                            adams_iter(f@, w0, h@, (k + 1) as nat).d,
                        )
                    &&& forall|k: nat| k < n ==> rat_le(adams_iter(f@, w0, h@, k).d.x, right@)
                    &&& !rat_le(adams_iter(f@, w0, h@, n as nat).d.x, right@)
                    &&& forall|k: nat| k < n ==> adams_defined(f@, adams_iter(f@, w0, h@, k))
                },
                Err(e) => {
                    &&& (e == NumError::DidNotConverge || e == NumError::Overflow || e
                        == NumError::DomainError)
                    &&& e == NumError::DidNotConverge ==> forall|k: nat|
                        k < max_steps ==> rat_le(adams_iter(f@, w0, h@, k).d.x, right@)
                    &&& e == NumError::DomainError ==> exists|k: nat|
                        k < max_steps as nat && !adams_defined(
                            f@,
                            #[trigger] adams_iter(f@, w0, h@, k),
                        )
                },
            }
        }),
{
    proof {
        use_type_invariant(f);
        RatFn2::lemma_fn_wf(*f);
        use_type_invariant(h);
        Ratio::lemma_inv_wf(*h);
        use_type_invariant(right);
        Ratio::lemma_inv_wf(*right);
    }
    if bootstrap.len() != 4 {
        return Err(NumError::DomainError);
    }
    let mut wa = bootstrap[0];
    let mut wb = bootstrap[1];
    let mut wc = bootstrap[2];
    let mut wd = bootstrap[3];
    proof {
        use_type_invariant(&wa);
        Point::lemma_inv_wf(wa);
        use_type_invariant(&wb);
        Point::lemma_inv_wf(wb);
        use_type_invariant(&wc);
        Point::lemma_inv_wf(wc);
        use_type_invariant(&wd);
        Point::lemma_inv_wf(wd);
    }
    let ghost w0 = WindowV { a: wa@, b: wb@, c: wc@, d: wd@ };
    let mut out: Vec<Point> = Vec::new();
    out.push(wa);
    out.push(wb);
    out.push(wc);
    out.push(wd);
    let mut it: usize = 0;
    while it < max_steps
        invariant
            it <= max_steps,
            ratfn2_wf(f@),
            bootstrap@.len() == 4,
            w0 == (WindowV {
                a: bootstrap@[0]@,
                b: bootstrap@[1]@,
                c: bootstrap@[2]@,
                d: bootstrap@[3]@,
            }),
            rat_wf(right@),
            window_wf(adams_iter(f@, w0, h@, it as nat)),
            point_eqv(wa@, adams_iter(f@, w0, h@, it as nat).a),
            point_eqv(wb@, adams_iter(f@, w0, h@, it as nat).b),
            point_eqv(wc@, adams_iter(f@, w0, h@, it as nat).c),
            point_eqv(wd@, adams_iter(f@, w0, h@, it as nat).d),
            out@.len() == it + 4,
            forall|i: int| 0 <= i < 4 ==> (#[trigger] out@[i])@ == bootstrap@[i]@,
            forall|k: int|
                0 <= k < it as int ==> point_eqv(
                    (#[trigger] out@[4 + k])@,
                    adams_iter(f@, w0, h@, (k + 1) as nat).d,
                ),
            forall|k: nat| k < it as nat ==> rat_le(adams_iter(f@, w0, h@, k).d.x, right@),
            forall|k: nat| k < it as nat ==> adams_defined(f@, adams_iter(f@, w0, h@, k)),
        decreases max_steps - it,
    {
        let ghost sk = adams_iter(f@, w0, h@, it as nat);
        let ghost sk1 = adams_iter(f@, w0, h@, (it + 1) as nat);
        proof {
            use_type_invariant(&wd);
            Point::lemma_inv_wf(wd);
            lemma_cmp_congr(wd@.x, sk.d.x, right@, right@);
        }
        if !wd.x().le(right) {
            return Ok(out);
        }
        let nd = match adams_step_exec(f, &wa, &wb, &wc, &wd, h, Ghost(sk)) {
            Ok(v) => v,
            Err(e) => {
                proof {
                    if e == NumError::DomainError {
                        assert(!adams_defined(f@, adams_iter(f@, w0, h@, it as nat)));
                    }
                }
                return Err(e);
            },
        };
        proof {
            assert(sk1 == adams_step(f@, sk, h@));
        }
        wa = wb;
        wb = wc;
        wc = wd;
        wd = nd;
        out.push(nd);
        it = it + 1;
    }
    proof {
        use_type_invariant(&wd);
        Point::lemma_inv_wf(wd);
        lemma_cmp_congr(wd@.x, adams_iter(f@, w0, h@, it as nat).d.x, right@, right@);
    }
    if !wd.x().le(right) {
        return Ok(out);
    }
    Err(NumError::DidNotConverge)
}

} // verus!
