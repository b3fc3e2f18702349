//! Polynomial interpolation.
//!
//! Lagrange interpolation through a set of nodes (with
//! nearest-neighbor node selection for the low-degree variants),
//! Newton's divided-difference polynomial through all nodes, and a
//! piecewise variant that splits the domain at the median node. All
//! evaluations are pinned exactly to spec-level formulas.

use vstd::prelude::*;

use crate::error::NumError;
use crate::points::{Point, PointV};
use crate::rat::{
    lemma_add_congr, lemma_cmp_congr, lemma_div_congr, lemma_eqv_trans, lemma_mul_congr,
    lemma_ops_wf, lemma_sub_congr, rat_abs, rat_add, rat_div, rat_eqv, rat_is_zero, rat_le,
    rat_lt, rat_mul, rat_of_int, rat_one, rat_sub, rat_wf, rat_zero, Rat, Ratio,
};
use crate::spline::{points_increasing, pts_views};

verus! {

/// The tail of the Lagrange basis factor product for node `i`,
/// starting at node index `j`:
/// `prod_{j <= j' < len, j' != i} (x - x_j') / (x_i - x_j')`.
pub open spec fn lag_basis(pts: Seq<PointV>, i: int, x: Rat, j: int) -> Rat
    decreases pts.len() - j,
{
    if j < 0 || j >= pts.len() {
        rat_one()
    } else if j == i {
        lag_basis(pts, i, x, j + 1)
    } else {
        rat_mul(
            rat_div(rat_sub(x, pts[j].x), rat_sub(pts[i].x, pts[j].x)),
            lag_basis(pts, i, x, j + 1),
        )
    }
}

/// The tail of the Lagrange sum starting at node `i`:
/// `sum_{i <= i' < len} y_i' * basis_i'(x)`.
pub open spec fn lag_sum(pts: Seq<PointV>, x: Rat, i: int) -> Rat
    decreases pts.len() - i,
{
    if i < 0 || i >= pts.len() {
        rat_zero()
    } else {
        rat_add(rat_mul(pts[i].y, lag_basis(pts, i, x, 0)), lag_sum(pts, x, i + 1))
    }
}

/// The full Lagrange interpolant through all nodes.
pub open spec fn lagrange_at(pts: Seq<PointV>, x: Rat) -> Rat {
    lag_sum(pts, x, 0)
}

/// All node models are well-formed.
pub open spec fn pts_wf(pts: Seq<PointV>) -> bool {
    forall|i: int| 0 <= i < pts.len() ==> crate::points::point_wf(#[trigger] pts[i])
}

/// Strict order is transitive across the whole node sequence.
pub proof fn lemma_sorted_pairwise(pts: Seq<PointV>, i: int, j: int)
    requires
        pts_wf(pts),
        points_increasing(pts),
        0 <= i < j < pts.len(),
    ensures
        rat_lt(pts[i].x, pts[j].x),
    decreases j - i,
{
    if j == i + 1 {
    } else {
        lemma_sorted_pairwise(pts, i, j - 1);
        assert(rat_lt(pts[j - 1].x, pts[j].x));
        assert(rat_lt(pts[i].x, pts[j].x)) by (nonlinear_arith)
            requires
                rat_lt(pts[i].x, pts[j - 1].x),
                rat_lt(pts[j - 1].x, pts[j].x),
                rat_wf(pts[i].x),
                rat_wf(pts[j - 1].x),
                rat_wf(pts[j].x),
        ;
    }
}

/// Distinct nodes have a nonzero abscissa difference.
pub proof fn lemma_distinct_nonzero(pts: Seq<PointV>, i: int, j: int)
    requires
        pts_wf(pts),
        points_increasing(pts),
        0 <= i < pts.len(),
        0 <= j < pts.len(),
        i != j,
    ensures
        !rat_is_zero(rat_sub(pts[i].x, pts[j].x)),
{
    if i < j {
        lemma_sorted_pairwise(pts, i, j);
        assert(!rat_is_zero(rat_sub(pts[i].x, pts[j].x))) by (nonlinear_arith)
            requires
                rat_lt(pts[i].x, pts[j].x),
                rat_wf(pts[i].x),
                rat_wf(pts[j].x),
        ;
    } else {
        lemma_sorted_pairwise(pts, j, i);
        assert(!rat_is_zero(rat_sub(pts[i].x, pts[j].x))) by (nonlinear_arith)
            requires
                rat_lt(pts[j].x, pts[i].x),
                rat_wf(pts[i].x),
                rat_wf(pts[j].x),
        ;
    }
}

/// The basis products and partial sums are well-formed.
pub proof fn lemma_lag_basis_wf(pts: Seq<PointV>, i: int, x: Rat, j: int)
    requires
        pts_wf(pts),
        points_increasing(pts),
        rat_wf(x),
        0 <= i < pts.len(),
    ensures
        rat_wf(lag_basis(pts, i, x, j)),
    decreases pts.len() - j,
{
    if j < 0 || j >= pts.len() {
    } else if j == i {
        lemma_lag_basis_wf(pts, i, x, j + 1);
    } else {
        lemma_lag_basis_wf(pts, i, x, j + 1);
        lemma_distinct_nonzero(pts, i, j);
        lemma_ops_wf(x, pts[j].x);
        lemma_ops_wf(pts[i].x, pts[j].x);
        lemma_ops_wf(rat_sub(x, pts[j].x), rat_sub(pts[i].x, pts[j].x));
        lemma_ops_wf(
            rat_div(rat_sub(x, pts[j].x), rat_sub(pts[i].x, pts[j].x)),
            lag_basis(pts, i, x, j + 1),
        );
    }
}

/// The partial Lagrange sums are well-formed.
pub proof fn lemma_lag_sum_wf(pts: Seq<PointV>, x: Rat, i: int)
    requires
        pts_wf(pts),
        points_increasing(pts),
        rat_wf(x),
    ensures
        rat_wf(lag_sum(pts, x, i)),
    decreases pts.len() - i,
{
    if i < 0 || i >= pts.len() {
    } else {
        lemma_lag_sum_wf(pts, x, i + 1);
        lemma_lag_basis_wf(pts, i, x, 0);
        lemma_ops_wf(pts[i].y, lag_basis(pts, i, x, 0));
        lemma_ops_wf(rat_mul(pts[i].y, lag_basis(pts, i, x, 0)), lag_sum(pts, x, i + 1));
    }
}

/// Evaluates the Lagrange interpolant through all of the given nodes
/// at `x`, pinned exactly to [`lagrange_at`]. The nodes must have
/// strictly increasing abscissas; anything else is a
/// [`NumError::DomainError`].
#[verifier::rlimit(100)]
#[verifier::spinoff_prover]
pub fn lagrange_eval(points: &Vec<Point>, x: &Ratio) -> (r: Result<Ratio, NumError>)
    ensures
        match r {
            Ok(v) => {
                &&& points_increasing(pts_views(points@))
                &&& rat_eqv(v@, lagrange_at(pts_views(points@), x@))
            },
            Err(e) => {
                &&& (e == NumError::DomainError || e == NumError::Overflow)
                &&& (e == NumError::DomainError <==> !points_increasing(pts_views(points@)))
            },
        },
{
    proof {
        use_type_invariant(x);
        Ratio::lemma_inv_wf(*x);
    }
    let np = points.len();
    let mut i: usize = 0;
    while np >= 2 && i < np - 1
        invariant
            np as int == points@.len(),
            i <= np,
            forall|k: int|
                0 <= k < i as int ==> rat_lt(
                    (#[trigger] pts_views(points@)[k]).x,
                    pts_views(points@)[k + 1].x,
                ),
        decreases np - i,
    {
        let p = points[i];
        let q = points[i + 1];
        if !p.x().lt(&q.x()) {
            proof {
                assert(p@ == pts_views(points@)[i as int]);
                assert(q@ == pts_views(points@)[i as int + 1]);
                assert(!points_increasing(pts_views(points@)));
            }
            return Err(NumError::DomainError);
        }
        i += 1;
    }
    let ghost pv = pts_views(points@);
    proof {
        assert(points_increasing(pv));
    }
    let mut w: usize = 0;
    while w < np
        invariant
            w <= np,
            np as int == points@.len(),
            pv == pts_views(points@),
            forall|k: int| 0 <= k < w as int ==> crate::points::point_wf(#[trigger] pv[k]),
        decreases np - w,
    {
        let p = points[w];
        proof {
            use_type_invariant(&p);
            Point::lemma_inv_wf(p);
            assert(p@ == pv[w as int]);
        }
        w += 1;
    }
    proof {
        assert(pts_wf(pv));
    }
    let mut sum = Ratio::from_int(0);
    let mut ii: usize = np;
    proof {
        assert(lag_sum(pv, x@, np as int) == rat_zero());
    }
    while ii > 0
        invariant
            ii <= np,
            np as int == points@.len(),
            pv == pts_views(points@),
            pts_wf(pv),
            points_increasing(pv),
            rat_wf(x@),
            rat_eqv(sum@, lag_sum(pv, x@, ii as int)),
        decreases ii,
    {
        ii = ii - 1;
        let ghost sum_old = sum@;
        // The basis product for node ii.
        let mut basis = Ratio::from_int(1);
        let mut jj: usize = np;
        proof {
            assert(lag_basis(pv, ii as int, x@, np as int) == rat_one());
        }
        while jj > 0
            invariant
                jj <= np,
                ii < np,
                np as int == points@.len(),
                pv == pts_views(points@),
                pts_wf(pv),
                points_increasing(pv),
                rat_wf(x@),
                rat_eqv(basis@, lag_basis(pv, ii as int, x@, jj as int)),
            decreases jj,
        {
            jj = jj - 1;
            let ghost basis_old = basis@;
            if jj != ii {
                let pj = points[jj];
                let pi = points[ii];
                proof {
                    use_type_invariant(&pj);
                    Point::lemma_inv_wf(pj);
                    use_type_invariant(&pi);
                    Point::lemma_inv_wf(pi);
                    assert(pj@ == pv[jj as int]);
                    assert(pi@ == pv[ii as int]);
                }
                let numv = match x.sub(&pj.x()) {
                    Ok(v) => v,
                    Err(e) => {
                        return Err(e);
                    },
                };
                let denv = match pi.x().sub(&pj.x()) {
                    Ok(v) => v,
                    Err(e) => {
                        return Err(e);
                    },
                };
                proof {
                    use_type_invariant(&numv);
                    Ratio::lemma_inv_wf(numv);
                    use_type_invariant(&denv);
                    Ratio::lemma_inv_wf(denv);
                    lemma_distinct_nonzero(pv, ii as int, jj as int);
                    lemma_ops_wf(pv[ii as int].x, pv[jj as int].x);
                    lemma_cmp_congr(
                        denv@,
                        rat_sub(pv[ii as int].x, pv[jj as int].x),
                        denv@,
                        rat_sub(pv[ii as int].x, pv[jj as int].x),
                    );
                }
                let quot = match numv.div(&denv) {
                    Ok(v) => v,
                    Err(e) => {
                        return Err(e);
                    },
                };
                let nb = match quot.mul(&basis) {
                    Ok(v) => v,
                    Err(e) => {
                        return Err(e);
                    },
                };
                proof {
                    use_type_invariant(&quot);
                    Ratio::lemma_inv_wf(quot);
                    use_type_invariant(&nb);
                    Ratio::lemma_inv_wf(nb);
                    use_type_invariant(&basis);
                    Ratio::lemma_inv_wf(basis);
                    let snum = rat_sub(x@, pv[jj as int].x);
                    let sden = rat_sub(pv[ii as int].x, pv[jj as int].x);
                    lemma_ops_wf(x@, pv[jj as int].x);
                    lemma_ops_wf(pv[ii as int].x, pv[jj as int].x);
                    lemma_div_congr(numv@, snum, denv@, sden);
                    lemma_ops_wf(numv@, denv@);
                    lemma_ops_wf(snum, sden);
                    lemma_eqv_trans(quot@, rat_div(numv@, denv@), rat_div(snum, sden));
                    lemma_lag_basis_wf(pv, ii as int, x@, jj as int + 1);
                    lemma_mul_congr(
                        quot@,
                        rat_div(snum, sden),
                        basis@,
                        lag_basis(pv, ii as int, x@, jj as int + 1),
                    );
                    lemma_ops_wf(quot@, basis@);
                    lemma_ops_wf(rat_div(snum, sden), lag_basis(pv, ii as int, x@, jj as int + 1));
                    lemma_eqv_trans(
                        nb@,
                        rat_mul(quot@, basis@),
                        rat_mul(rat_div(snum, sden), lag_basis(pv, ii as int, x@, jj as int + 1)),
                    );
                }
                basis = nb;
            }
        }
        let pi = points[ii];
        proof {
            use_type_invariant(&pi);
            Point::lemma_inv_wf(pi);
            assert(pi@ == pv[ii as int]);
        }
        let term = match pi.y().mul(&basis) {
            Ok(v) => v,
            Err(e) => {
                return Err(e);
            },
        };
        let ns = match term.add(&sum) {
            Ok(v) => v,
            Err(e) => {
                return Err(e);
            },
        };
        proof {
            use_type_invariant(&term);
            Ratio::lemma_inv_wf(term);
            use_type_invariant(&ns);
            Ratio::lemma_inv_wf(ns);
            use_type_invariant(&basis);
            Ratio::lemma_inv_wf(basis);
            use_type_invariant(&sum);
            Ratio::lemma_inv_wf(sum);
            lemma_lag_basis_wf(pv, ii as int, x@, 0);
            lemma_mul_congr(pv[ii as int].y, pv[ii as int].y, basis@, lag_basis(pv, ii as int, x@, 0));
            lemma_ops_wf(pv[ii as int].y, basis@);
            lemma_ops_wf(pv[ii as int].y, lag_basis(pv, ii as int, x@, 0));
            lemma_eqv_trans(
                term@,
                rat_mul(pv[ii as int].y, basis@),
                rat_mul(pv[ii as int].y, lag_basis(pv, ii as int, x@, 0)),
            );
            lemma_lag_sum_wf(pv, x@, ii as int + 1);
            lemma_add_congr(
                term@,
                rat_mul(pv[ii as int].y, lag_basis(pv, ii as int, x@, 0)),
                sum_old,
                lag_sum(pv, x@, ii as int + 1),
            );
            lemma_ops_wf(term@, sum_old);
            lemma_ops_wf(
                rat_mul(pv[ii as int].y, lag_basis(pv, ii as int, x@, 0)),
                lag_sum(pv, x@, ii as int + 1),
            );
            lemma_eqv_trans(
                ns@,
                rat_add(term@, sum_old),
                rat_add(
                    rat_mul(pv[ii as int].y, lag_basis(pv, ii as int, x@, 0)),
                    lag_sum(pv, x@, ii as int + 1),
                ),
            );
        }
        sum = ns;
    }
    Ok(sum)
}

/// A quotient of a nonzero value by itself denotes one.
proof fn lemma_div_self_one(a: Rat)
    by (nonlinear_arith)
    requires
        rat_wf(a),
        a.n != 0,
    ensures
        rat_eqv(rat_div(a, a), rat_one()),
{
}

/// A zero numerator propagates through quotients, products, and sums.
proof fn lemma_div_zero_num(a: Rat, b: Rat)
    by (nonlinear_arith)
    requires
        a.n == 0,
    ensures
        rat_div(a, b).n == 0,
{
}

/// A zero numerator in either factor gives a zero-numerator product.
proof fn lemma_mul_zero_num(a: Rat, b: Rat)
    by (nonlinear_arith)
    requires
        a.n == 0 || b.n == 0,
    ensures
        rat_mul(a, b).n == 0,
{
}

/// Two zero-numerator values sum to a zero-numerator value.
proof fn lemma_add_zero_nums(a: Rat, b: Rat)
    by (nonlinear_arith)
    requires
        a.n == 0,
        b.n == 0,
    ensures
        rat_add(a, b).n == 0,
{
}

/// Adding a zero-numerator value on either side does not change the
/// value.
proof fn lemma_add_zero_num(a: Rat, b: Rat)
    by (nonlinear_arith)
    requires
        rat_wf(a),
        rat_wf(b),
    ensures
        a.n == 0 ==> rat_eqv(rat_add(a, b), b),
        b.n == 0 ==> rat_eqv(rat_add(a, b), a),
{
}

/// At the node `t`, the basis product of any other node `i` has a
/// zero numerator: it contains the vanishing factor at `j == t`.
proof fn lemma_basis_at_node_zero(pts: Seq<PointV>, i: int, t: int, j: int)
    requires
        pts_wf(pts),
        points_increasing(pts),
        0 <= i < pts.len(),
        0 <= t < pts.len(),
        i != t,
        0 <= j <= t,
    ensures
        lag_basis(pts, i, pts[t].x, j).n == 0,
    decreases pts.len() - j,
{
    let x = pts[t].x;
    if j == t {
        assert(rat_sub(x, pts[j].x).n == 0);
        lemma_div_zero_num(rat_sub(x, pts[j].x), rat_sub(pts[i].x, pts[j].x));
        lemma_mul_zero_num(
            rat_div(rat_sub(x, pts[j].x), rat_sub(pts[i].x, pts[j].x)),
            lag_basis(pts, i, x, j + 1),
        );
    } else {
        lemma_basis_at_node_zero(pts, i, t, j + 1);
        if j != i {
            lemma_mul_zero_num(
                rat_div(rat_sub(x, pts[j].x), rat_sub(pts[i].x, pts[j].x)),
                lag_basis(pts, i, x, j + 1),
            );
        }
    }
}

/// At its own node, a basis product denotes one: every factor is a
/// nonzero difference divided by itself.
proof fn lemma_basis_at_own_node_one(pts: Seq<PointV>, t: int, j: int)
    requires
        pts_wf(pts),
        points_increasing(pts),
        0 <= t < pts.len(),
        0 <= j,
    ensures
        rat_eqv(lag_basis(pts, t, pts[t].x, j), rat_one()),
    decreases pts.len() - j,
{
    if j < 0 || j >= pts.len() {
    } else if j == t {
        lemma_basis_at_own_node_one(pts, t, j + 1);
    } else {
        lemma_basis_at_own_node_one(pts, t, j + 1);
        let fac = rat_div(rat_sub(pts[t].x, pts[j].x), rat_sub(pts[t].x, pts[j].x));
        lemma_distinct_nonzero(pts, t, j);
        lemma_ops_wf(pts[t].x, pts[j].x);
        lemma_div_self_one(rat_sub(pts[t].x, pts[j].x));
        lemma_ops_wf(rat_sub(pts[t].x, pts[j].x), rat_sub(pts[t].x, pts[j].x));
        lemma_lag_basis_wf(pts, t, pts[t].x, j + 1);
        lemma_mul_congr(fac, rat_one(), lag_basis(pts, t, pts[t].x, j + 1), rat_one());
        lemma_ops_wf(fac, lag_basis(pts, t, pts[t].x, j + 1));
        lemma_ops_wf(rat_one(), rat_one());
        assert(rat_mul(rat_one(), rat_one()) == rat_one());
        lemma_eqv_trans(
            lag_basis(pts, t, pts[t].x, j),
            rat_mul(rat_one(), rat_one()),
            rat_one(),
        );
    }
}

/// The tail of the Lagrange sum at the node `t`: it denotes the
/// node's ordinate while the node's own term is still ahead, and has
/// a zero numerator once it is behind.
proof fn lemma_lag_sum_at_node(pts: Seq<PointV>, t: int, i: int)
    requires
        pts_wf(pts),
        points_increasing(pts),
        0 <= t < pts.len(),
        0 <= i,
    ensures
        i > t ==> lag_sum(pts, pts[t].x, i).n == 0,
        i <= t ==> rat_eqv(lag_sum(pts, pts[t].x, i), pts[t].y),
    decreases pts.len() - i,
{
    let x = pts[t].x;
    if i >= pts.len() {
    } else {
        lemma_lag_sum_at_node(pts, t, i + 1);
        lemma_lag_sum_wf(pts, x, i + 1);
        lemma_lag_basis_wf(pts, i, x, 0);
        lemma_ops_wf(pts[i].y, lag_basis(pts, i, x, 0));
        let term = rat_mul(pts[i].y, lag_basis(pts, i, x, 0));
        if i > t {
            lemma_basis_at_node_zero(pts, i, t, 0);
            lemma_mul_zero_num(pts[i].y, lag_basis(pts, i, x, 0));
            lemma_add_zero_nums(term, lag_sum(pts, x, i + 1));
        } else if i < t {
            lemma_basis_at_node_zero(pts, i, t, 0);
            lemma_mul_zero_num(pts[i].y, lag_basis(pts, i, x, 0));
            lemma_add_zero_num(term, lag_sum(pts, x, i + 1));
            lemma_ops_wf(term, lag_sum(pts, x, i + 1));
            lemma_eqv_trans(lag_sum(pts, x, i), lag_sum(pts, x, i + 1), pts[t].y);
        } else {
            lemma_basis_at_own_node_one(pts, t, 0);
            lemma_mul_congr(pts[i].y, pts[i].y, lag_basis(pts, i, x, 0), rat_one());
            lemma_ops_wf(pts[i].y, rat_one());
            assert(rat_mul(pts[i].y, rat_one()) == pts[i].y);
            lemma_eqv_trans(term, rat_mul(pts[i].y, rat_one()), pts[i].y);
            lemma_add_zero_num(term, lag_sum(pts, x, i + 1));
            lemma_ops_wf(term, lag_sum(pts, x, i + 1));
            lemma_eqv_trans(lag_sum(pts, x, i), term, pts[t].y);
        }
    }
}

/// The interpolation law: at any of its nodes, the Lagrange
/// interpolant through strictly increasing nodes reproduces that
/// node's ordinate exactly. In particular, the values pinned by
/// [`lagrange_eval`], [`lagrange_2`], [`lagrange_3`], and
/// [`piecewise_3`] reproduce every node of their selected windows.
pub proof fn lemma_lagrange_reproduces_nodes(pts: Seq<PointV>, t: int)
    requires
        pts_wf(pts),
        points_increasing(pts),
        0 <= t < pts.len(),
    ensures
        rat_eqv(lagrange_at(pts, pts[t].x), pts[t].y),
{
    lemma_lag_sum_at_node(pts, t, 0);
}

/// The distance from node `t` to the query `x`.
pub open spec fn node_dist(pts: Seq<PointV>, t: int, x: Rat) -> Rat {
    rat_abs(rat_sub(pts[t].x, x))
}

/// The start of the window of the `m` nodes nearest to `x`: the
/// window advances past a node exactly while the node entering it is
/// strictly closer to `x` than the node leaving it (so equal
/// distances keep the earlier nodes).
pub open spec fn window_pinned(pts: Seq<PointV>, x: Rat, m: int, s: int) -> bool {
    &&& 0 <= s
    &&& s + m <= pts.len()
    &&& forall|t: int| 0 <= t < s ==> rat_lt(node_dist(pts, t + m, x), #[trigger] node_dist(pts, t, x))
    &&& (s + m == pts.len() || !rat_lt(node_dist(pts, s + m, x), node_dist(pts, s, x)))
}

/// Finds the start of the nearest window of `m` nodes.
fn nearest_window_start(points: &Vec<Point>, x: &Ratio, m: usize) -> (r: Result<usize, NumError>)
    requires
        1 <= m <= points@.len(),
    ensures
        match r {
            Ok(s) => window_pinned(pts_views(points@), x@, m as int, s as int),
            Err(e) => e == NumError::Overflow,
        },
{
    proof {
        use_type_invariant(x);
        Ratio::lemma_inv_wf(*x);
    }
    let n = points.len();
    let ghost pv = pts_views(points@);
    let mut s: usize = 0;
    loop
        invariant_except_break
            1 <= m <= n,
            n as int == points@.len(),
            pv == pts_views(points@),
            rat_wf(x@),
            s + m <= n,
            forall|t: int|
                0 <= t < s as int ==> rat_lt(
                    node_dist(pv, t + m, x@),
                    #[trigger] node_dist(pv, t, x@),
                ),
        ensures
            window_pinned(pv, x@, m as int, s as int),
        decreases n - s,
    {
        if s + m >= n {
            break;
        }
        let pe = points[s + m];
        let pl = points[s];
        proof {
            use_type_invariant(&pe);
            Point::lemma_inv_wf(pe);
            use_type_invariant(&pl);
            Point::lemma_inv_wf(pl);
            assert(pe@ == pv[s as int + m as int]);
            assert(pl@ == pv[s as int]);
        }
        let de_raw = match pe.x().sub(x) {
            Ok(v) => v,
            Err(e) => {
                return Err(e);
            },
        };
        let de = match de_raw.abs() {
            Ok(v) => v,
            Err(e) => {
                return Err(e);
            },
        };
        let dl_raw = match pl.x().sub(x) {
            Ok(v) => v,
            Err(e) => {
                return Err(e);
            },
        };
        let dl = match dl_raw.abs() {
            Ok(v) => v,
            Err(e) => {
                return Err(e);
            },
        };
        proof {
            use_type_invariant(&de_raw);
            Ratio::lemma_inv_wf(de_raw);
            use_type_invariant(&de);
            Ratio::lemma_inv_wf(de);
            use_type_invariant(&dl_raw);
            Ratio::lemma_inv_wf(dl_raw);
            use_type_invariant(&dl);
            Ratio::lemma_inv_wf(dl);
            lemma_ops_wf(pv[s as int + m as int].x, x@);
            lemma_ops_wf(pv[s as int].x, x@);
            lemma_ops_wf(rat_sub(pv[s as int + m as int].x, x@), rat_sub(pv[s as int + m as int].x, x@));
            lemma_ops_wf(rat_sub(pv[s as int].x, x@), rat_sub(pv[s as int].x, x@));
            crate::rat::lemma_abs_congr(de_raw@, rat_sub(pv[s as int + m as int].x, x@));
            crate::rat::lemma_abs_congr(dl_raw@, rat_sub(pv[s as int].x, x@));
            lemma_ops_wf(de_raw@, de_raw@);
            lemma_ops_wf(dl_raw@, dl_raw@);
            lemma_eqv_trans(de@, rat_abs(de_raw@), node_dist(pv, s as int + m as int, x@));
            lemma_eqv_trans(dl@, rat_abs(dl_raw@), node_dist(pv, s as int, x@));
            lemma_cmp_congr(
                de@,
                node_dist(pv, s as int + m as int, x@),
                dl@,
                node_dist(pv, s as int, x@),
            );
        }
        if de.lt(&dl) {
            s += 1;
        } else {
            break;
        }
    }
    Ok(s)
}

/// Copies the window `[s, s + m)` of the points.
fn gather_window(points: &Vec<Point>, s: usize, m: usize) -> (r: Vec<Point>)
    requires
        s + m <= points@.len(),
    ensures
        r@.len() == m,
        forall|k: int| 0 <= k < m ==> (#[trigger] r@[k]) == points@[s + k],
        pts_views(r@) =~= pts_views(points@).subrange(s as int, s as int + m as int),
{
    let plen = points.len();
    let mut out: Vec<Point> = Vec::new();
    let mut k: usize = 0;
    while k < m
        invariant
            k <= m,
            s + m <= points@.len(),
            plen == points@.len(),
            out@.len() == k,
            forall|j: int| 0 <= j < k as int ==> (#[trigger] out@[j]) == points@[s + j],
        decreases m - k,
    {
        proof {
            assert(s + k < plen);
        }
        out.push(points[s + k]);
        k += 1;
    }
    proof {
        assert(pts_views(out@) =~= pts_views(points@).subrange(s as int, s as int + m as int));
    }
    out
}

/// Lagrange interpolation through the `m` nodes nearest to `x`. The
/// value is pinned to [`lagrange_at`] over the selected window.
fn lagrange_nearest(points: &Vec<Point>, x: &Ratio, m: usize) -> (r: Result<Ratio, NumError>)
    ensures
        ({
            let pv = pts_views(points@);
            match r {
                Ok(v) => {
                    &&& points_increasing(pv)
                    &&& m <= points@.len()
                    &&& exists|s: int|
                        #[trigger] window_pinned(pv, x@, m as int, s) && rat_eqv(
                            v@,
                            lagrange_at(pv.subrange(s, s + m as int), x@),
                        )
                },
                Err(e) => {
                    &&& (e == NumError::DomainError || e == NumError::Overflow)
                    &&& (e == NumError::DomainError <==> (points@.len() < m || m < 1
                        || !points_increasing(pv)))
                },
            }
        }),
{
    let np = points.len();
    if m < 1 || np < m {
        return Err(NumError::DomainError);
    }
    let mut i: usize = 0;
    while np >= 2 && i < np - 1
        invariant
            np as int == points@.len(),
            i <= np,
            forall|k: int|
                0 <= k < i as int ==> rat_lt(
                    (#[trigger] pts_views(points@)[k]).x,
                    pts_views(points@)[k + 1].x,
                ),
        decreases np - i,
    {
        let p = points[i];
        let q = points[i + 1];
        if !p.x().lt(&q.x()) {
            proof {
                assert(p@ == pts_views(points@)[i as int]);
                assert(q@ == pts_views(points@)[i as int + 1]);
                assert(!points_increasing(pts_views(points@)));
            }
            return Err(NumError::DomainError);
        }
        i += 1;
    }
    let ghost pv = pts_views(points@);
    proof {
        assert(points_increasing(pv));
    }
    let s = match nearest_window_start(points, x, m) {
        Ok(v) => v,
        Err(e) => {
            return Err(e);
        },
    };
    let sub = gather_window(points, s, m);
    proof {
        assert(points_increasing(pts_views(sub@)));
    }
    let v = match lagrange_eval(&sub, x) {
        Ok(v) => v,
        Err(e) => {
            proof {
                assert(e != NumError::DomainError);
            }
            return Err(e);
        },
    };
    proof {
        assert(window_pinned(pv, x@, m as int, s as int) && rat_eqv(
            v@,
            lagrange_at(pv.subrange(s as int, s as int + m as int), x@),
        ));
    }
    Ok(v)
}

/// Lagrange interpolation through the two nodes nearest to `x`.
pub fn lagrange_2(points: &Vec<Point>, x: &Ratio) -> (r: Result<Ratio, NumError>)
    ensures
        ({
            let pv = pts_views(points@);
            match r {
                Ok(v) => {
                    &&& points_increasing(pv)
                    &&& points@.len() >= 2
                    &&& exists|s: int|
                        #[trigger] window_pinned(pv, x@, 2, s) && rat_eqv(
                            v@,
                            lagrange_at(pv.subrange(s, s + 2), x@),
                        )
                },
                Err(e) => {
                    &&& (e == NumError::DomainError || e == NumError::Overflow)
                    &&& (e == NumError::DomainError <==> (points@.len() < 2
                        || !points_increasing(pv)))
                },
            }
        }),
{
    lagrange_nearest(points, x, 2)
}

/// Lagrange interpolation through the three nodes nearest to `x`.
pub fn lagrange_3(points: &Vec<Point>, x: &Ratio) -> (r: Result<Ratio, NumError>)
    ensures
        ({
            let pv = pts_views(points@);
            match r {
                Ok(v) => {
                    &&& points_increasing(pv)
                    &&& points@.len() >= 3
                    &&& exists|s: int|
                        #[trigger] window_pinned(pv, x@, 3, s) && rat_eqv(
                            v@,
                            lagrange_at(pv.subrange(s, s + 3), x@),
                        )
                },
                Err(e) => {
                    &&& (e == NumError::DomainError || e == NumError::Overflow)
                    &&& (e == NumError::DomainError <==> (points@.len() < 3
                        || !points_increasing(pv)))
                },
            }
        }),
{
    lagrange_nearest(points, x, 3)
}

/// Piecewise three-node interpolation: the domain is split at the
/// median node's abscissa; queries at or left of it use the first
/// three nodes, the others use the last three.
#[verifier::rlimit(100)]
#[verifier::spinoff_prover]
pub fn piecewise_3(points: &Vec<Point>, x: &Ratio) -> (r: Result<Ratio, NumError>)
    ensures
        ({
            let pv = pts_views(points@);
            let med = pv[(points@.len() - 1) / 2].x;
            match r {
                Ok(v) => {
                    &&& points_increasing(pv)
                    &&& points@.len() >= 3
                    &&& (rat_le(x@, med) ==> rat_eqv(v@, lagrange_at(pv.subrange(0, 3), x@)))
                    &&& (!rat_le(x@, med) ==> rat_eqv(
                        v@,
                        lagrange_at(
                            pv.subrange(points@.len() - 3, points@.len() as int),
                            x@,
                        ),
                    ))
                },
                Err(e) => {
                    &&& (e == NumError::DomainError || e == NumError::Overflow)
                    &&& (e == NumError::DomainError <==> (points@.len() < 3
                        || !points_increasing(pv)))
                },
            }
        }),
{
    proof {
        use_type_invariant(x);
        Ratio::lemma_inv_wf(*x);
    }
    let np = points.len();
    if np < 3 {
        return Err(NumError::DomainError);
    }
    let mut i: usize = 0;
    while np >= 2 && i < np - 1
        invariant
            np as int == points@.len(),
            i <= np,
            forall|k: int|
                0 <= k < i as int ==> rat_lt(
                    (#[trigger] pts_views(points@)[k]).x,
                    pts_views(points@)[k + 1].x,
                ),
        decreases np - i,
    {
        let p = points[i];
        let q = points[i + 1];
        if !p.x().lt(&q.x()) {
            proof {
                assert(p@ == pts_views(points@)[i as int]);
                assert(q@ == pts_views(points@)[i as int + 1]);
                assert(!points_increasing(pts_views(points@)));
            }
            return Err(NumError::DomainError);
        }
        i += 1;
    }
    let ghost pv = pts_views(points@);
    proof {
        assert(points_increasing(pv));
    }
    let pmed = points[(np - 1) / 2];
    proof {
        use_type_invariant(&pmed);
        Point::lemma_inv_wf(pmed);
        assert(pmed@ == pv[(points@.len() - 1) / 2]);
    }
    let left = x.le(&pmed.x());
    let sub = if left {
        gather_window(points, 0, 3)
    } else {
        gather_window(points, np - 3, 3)
    };
    proof {
        assert(points_increasing(pts_views(sub@)));
    }
    let v = match lagrange_eval(&sub, x) {
        Ok(v) => v,
        Err(e) => {
            proof {
                assert(e != NumError::DomainError);
            }
            return Err(e);
        },
    };
    Ok(v)
}

/// The divided difference of the nodes `lo ..= hi`, by the forward
/// recursion: a single node's difference is its ordinate, and
/// otherwise `(dd(lo+1, hi) - dd(lo, hi-1)) / (x_hi - x_lo)`.
pub open spec fn divided_difference(pts: Seq<PointV>, lo: int, hi: int) -> Rat
    decreases hi - lo,
{
    if lo < 0 || hi >= pts.len() || hi <= lo {
        if 0 <= lo && lo < pts.len() {
            pts[lo].y
        } else {
            rat_zero()
        }
    } else {
        rat_div(
            rat_sub(divided_difference(pts, lo + 1, hi), divided_difference(pts, lo, hi - 1)),
            rat_sub(pts[hi].x, pts[lo].x),
        )
    }
}

/// The Newton basis product before term `j`:
/// `prod_{t < j} (x - x_t)`.
pub open spec fn newton_basis(pts: Seq<PointV>, x: Rat, j: int) -> Rat
    decreases j,
{
    if j <= 0 {
        rat_one()
    } else {
        rat_mul(newton_basis(pts, x, j - 1), rat_sub(x, pts[j - 1].x))
    }
}

/// The sum of the first `j` Newton terms:
/// `sum_{t < j} dd(0, t) * basis_t(x)`.
pub open spec fn newton_prefix(pts: Seq<PointV>, x: Rat, j: int) -> Rat
    decreases j,
{
    if j <= 0 {
        rat_zero()
    } else {
        rat_add(
            newton_prefix(pts, x, j - 1),
            rat_mul(divided_difference(pts, 0, j - 1), newton_basis(pts, x, j - 1)),
        )
    }
}

/// The full Newton divided-difference interpolant through all nodes.
pub open spec fn newton_at(pts: Seq<PointV>, x: Rat) -> Rat {
    newton_prefix(pts, x, pts.len() as int)
}

/// The Newton basis products are well-formed.
pub proof fn lemma_newton_basis_wf(pts: Seq<PointV>, x: Rat, j: int)
    requires
        pts_wf(pts),
        rat_wf(x),
        j <= pts.len(),
    ensures
        rat_wf(newton_basis(pts, x, j)),
    decreases j,
{
    if j <= 0 {
    } else {
        lemma_newton_basis_wf(pts, x, j - 1);
        lemma_ops_wf(x, pts[j - 1].x);
        lemma_ops_wf(newton_basis(pts, x, j - 1), rat_sub(x, pts[j - 1].x));
    }
}

/// The first-order divided difference is symmetric in its two
/// nodes: reading the pair in either order denotes the same value.
/// (The symmetry of higher-order divided differences under arbitrary
/// node permutations is a classical fact that is not stated here.)
pub proof fn lemma_divided_difference_pair_symmetric(a: PointV, b: PointV)
    requires
        crate::points::point_wf(a),
        crate::points::point_wf(b),
        !rat_is_zero(rat_sub(b.x, a.x)),
    ensures
        !rat_is_zero(rat_sub(a.x, b.x)),
        rat_eqv(
            rat_div(rat_sub(b.y, a.y), rat_sub(b.x, a.x)),
            rat_div(rat_sub(a.y, b.y), rat_sub(a.x, b.x)),
        ),
{
    let u = rat_sub(b.y, a.y);
    let v = rat_sub(b.x, a.x);
    let u2 = rat_sub(a.y, b.y);
    let v2 = rat_sub(a.x, b.x);
    assert(u2.d == u.d && v2.d == v.d && u.d > 0 && v.d > 0) by (nonlinear_arith)
        requires
            u.d == b.y.d * a.y.d,
            u2.d == a.y.d * b.y.d,
            v.d == b.x.d * a.x.d,
            v2.d == a.x.d * b.x.d,
            a.y.d > 0,
            b.y.d > 0,
            a.x.d > 0,
            b.x.d > 0,
    ;
    assert(u2.n == -u.n && v2.n == -v.n);
    assert(rat_eqv(rat_div(u, v), rat_div(u2, v2))) by (nonlinear_arith)
        requires
            u2.n == -u.n,
            u2.d == u.d,
            v2.n == -v.n,
            v2.d == v.d,
            v.n != 0,
            u.d > 0,
            v.d > 0,
    ;
}

/// The Newton prefix sums are well-formed.
pub proof fn lemma_newton_prefix_wf(pts: Seq<PointV>, x: Rat, j: int)
    requires
        pts_wf(pts),
        points_increasing(pts),
        rat_wf(x),
        j <= pts.len(),
    ensures
        rat_wf(newton_prefix(pts, x, j)),
    decreases j,
{
    if j <= 0 {
    } else {
        lemma_newton_prefix_wf(pts, x, j - 1);
        lemma_dd_wf(pts, 0, j - 1);
        lemma_newton_basis_wf(pts, x, j - 1);
        lemma_ops_wf(divided_difference(pts, 0, j - 1), newton_basis(pts, x, j - 1));
        lemma_ops_wf(
            newton_prefix(pts, x, j - 1),
            rat_mul(divided_difference(pts, 0, j - 1), newton_basis(pts, x, j - 1)),
        );
    }
}

/// Divided differences of well-formed increasing nodes are
/// well-formed.
pub proof fn lemma_dd_wf(pts: Seq<PointV>, lo: int, hi: int)
    requires
        pts_wf(pts),
        points_increasing(pts),
    ensures
        rat_wf(divided_difference(pts, lo, hi)),
    decreases hi - lo,
{
    if lo < 0 || hi >= pts.len() || hi <= lo {
    } else {
        lemma_dd_wf(pts, lo + 1, hi);
        lemma_dd_wf(pts, lo, hi - 1);
        lemma_distinct_nonzero(pts, hi, lo);
        lemma_ops_wf(divided_difference(pts, lo + 1, hi), divided_difference(pts, lo, hi - 1));
        lemma_ops_wf(pts[hi].x, pts[lo].x);
        lemma_ops_wf(
            rat_sub(divided_difference(pts, lo + 1, hi), divided_difference(pts, lo, hi - 1)),
            rat_sub(pts[hi].x, pts[lo].x),
        );
    }
}

/// Computes every leading divided difference `dd(0, j)` by the
/// quadratic triangular-table fill: level `l` of the table holds the
/// differences of `l + 1` consecutive nodes, each level derived from
/// the one before it, and the leading entry of each level is
/// collected. Every entry is pinned to [`divided_difference`].
#[verifier::rlimit(100)]
#[verifier::spinoff_prover]
fn leading_differences(points: &Vec<Point>) -> (r: Result<Vec<Ratio>, NumError>)
    requires
        pts_wf(pts_views(points@)),
        points_increasing(pts_views(points@)),
    ensures
        match r {
            Ok(dds) => {
                &&& dds@.len() == points@.len()
                &&& forall|j: int|
                    0 <= j < dds@.len() ==> rat_eqv(
                        (#[trigger] dds@[j])@,
                        divided_difference(pts_views(points@), 0, j),
                    )
                &&& forall|j: int| 0 <= j < dds@.len() ==> (#[trigger] dds@[j]).inv()
            },
            Err(e) => e == NumError::Overflow,
        },
{
    let ghost pv = pts_views(points@);
    let np = points.len();
    let mut col: Vec<Ratio> = Vec::new();
    let mut t: usize = 0;
    while t < np
        invariant
            t <= np,
            np as int == points@.len(),
            pv == pts_views(points@),
            col@.len() == t as int,
            forall|u: int| 0 <= u < t as int ==> (#[trigger] col@[u])@ == pv[u].y,
            forall|u: int| 0 <= u < t as int ==> (#[trigger] col@[u]).inv(),
        decreases np - t,
    {
        let p = points[t];
        let y = p.y();
        proof {
            use_type_invariant(&y);
            assert(p@ == pv[t as int]);
        }
        col.push(y);
        t += 1;
    }
    let mut dds: Vec<Ratio> = Vec::new();
    if np == 0 {
        return Ok(dds);
    }
    dds.push(col[0]);
    let mut l: usize = 1;
    while l < np
        invariant
            1 <= l <= np,
            np as int == points@.len(),
            pv == pts_views(points@),
            pts_wf(pv),
            points_increasing(pv),
            col@.len() == np - (l - 1),
            forall|u: int|
                0 <= u < col@.len() ==> rat_eqv(
                    (#[trigger] col@[u])@,
                    divided_difference(pv, u, u + (l - 1)),
                ),
            forall|u: int| 0 <= u < col@.len() ==> (#[trigger] col@[u]).inv(),
            dds@.len() == l as int,
            forall|j: int|
                0 <= j < l as int ==> rat_eqv(
                    (#[trigger] dds@[j])@,
                    divided_difference(pv, 0, j),
                ),
            forall|j: int| 0 <= j < l as int ==> (#[trigger] dds@[j]).inv(),
        decreases np - l,
    {
        let width = col.len() - 1;
        let mut newcol: Vec<Ratio> = Vec::new();
        let mut t: usize = 0;
        while t < width
            invariant
                t <= width,
                1 <= l < np,
                width == np - l,
                np as int == points@.len(),
                pv == pts_views(points@),
                pts_wf(pv),
                points_increasing(pv),
                col@.len() == np - (l - 1),
                forall|u: int|
                    0 <= u < col@.len() ==> rat_eqv(
                        (#[trigger] col@[u])@,
                        divided_difference(pv, u, u + (l - 1)),
                    ),
                forall|u: int| 0 <= u < col@.len() ==> (#[trigger] col@[u]).inv(),
                newcol@.len() == t as int,
                forall|u: int|
                    0 <= u < t as int ==> rat_eqv(
                        (#[trigger] newcol@[u])@,
                        divided_difference(pv, u, u + l),
                    ),
                forall|u: int| 0 <= u < t as int ==> (#[trigger] newcol@[u]).inv(),
            decreases width - t,
        {
            let upper = col[t + 1];
            let lower = col[t];
            let phi_ = points[t + l];
            let plo = points[t];
            proof {
                use_type_invariant(&phi_);
                Point::lemma_inv_wf(phi_);
                use_type_invariant(&plo);
                Point::lemma_inv_wf(plo);
                use_type_invariant(&upper);
                Ratio::lemma_inv_wf(upper);
                use_type_invariant(&lower);
                Ratio::lemma_inv_wf(lower);
                assert(phi_@ == pv[t as int + l as int]);
                assert(plo@ == pv[t as int]);
            }
            let num = match upper.sub(&lower) {
                Ok(v) => v,
                Err(e) => {
                    return Err(e);
                },
            };
            let den = match phi_.x().sub(&plo.x()) {
                Ok(v) => v,
                Err(e) => {
                    return Err(e);
                },
            };
            proof {
                use_type_invariant(&num);
                Ratio::lemma_inv_wf(num);
                use_type_invariant(&den);
                Ratio::lemma_inv_wf(den);
                lemma_distinct_nonzero(pv, t as int + l as int, t as int);
                lemma_ops_wf(pv[t as int + l as int].x, pv[t as int].x);
                lemma_cmp_congr(
                    den@,
                    rat_sub(pv[t as int + l as int].x, pv[t as int].x),
                    den@,
                    rat_sub(pv[t as int + l as int].x, pv[t as int].x),
                );
            }
            let q = match num.div(&den) {
                Ok(v) => v,
                Err(e) => {
                    return Err(e);
                },
            };
            proof {
                use_type_invariant(&q);
                Ratio::lemma_inv_wf(q);
                let su = divided_difference(pv, t as int + 1, t as int + l as int);
                let sl = divided_difference(pv, t as int, t as int + l as int - 1);
                lemma_dd_wf(pv, t as int + 1, t as int + l as int);
                lemma_dd_wf(pv, t as int, t as int + l as int - 1);
                lemma_sub_congr(upper@, su, lower@, sl);
                lemma_ops_wf(upper@, lower@);
                lemma_ops_wf(su, sl);
                lemma_eqv_trans(num@, rat_sub(upper@, lower@), rat_sub(su, sl));
                lemma_div_congr(
                    num@,
                    rat_sub(su, sl),
                    den@,
                    rat_sub(pv[t as int + l as int].x, pv[t as int].x),
                );
                lemma_ops_wf(num@, den@);
                lemma_ops_wf(rat_sub(su, sl), rat_sub(pv[t as int + l as int].x, pv[t as int].x));
                lemma_eqv_trans(
                    q@,
                    rat_div(num@, den@),
                    divided_difference(pv, t as int, t as int + l as int),
                );
            }
            newcol.push(q);
            t += 1;
        }
        col = newcol;
        let lead = col[0];
        proof {
            use_type_invariant(&lead);
        }
        dds.push(lead);
        l += 1;
    }
    Ok(dds)
}

/// Evaluates the Newton divided-difference interpolant through all
/// nodes at `x`, pinned exactly to [`newton_at`]. The nodes must
/// have strictly increasing abscissas; anything else is a
/// [`NumError::DomainError`].
#[verifier::rlimit(100)]
#[verifier::spinoff_prover]
pub fn newton_eval(points: &Vec<Point>, x: &Ratio) -> (r: Result<Ratio, NumError>)
    ensures
        match r {
            Ok(v) => {
                &&& points_increasing(pts_views(points@))
                &&& rat_eqv(v@, newton_at(pts_views(points@), x@))
            },
            Err(e) => {
                &&& (e == NumError::DomainError || e == NumError::Overflow)
                &&& (e == NumError::DomainError <==> !points_increasing(pts_views(points@)))
            },
        },
{
    proof {
        use_type_invariant(x);
        Ratio::lemma_inv_wf(*x);
    }
    let np = points.len();
    let mut i: usize = 0;
    while np >= 2 && i < np - 1
        invariant
            np as int == points@.len(),
            i <= np,
            forall|k: int|
                0 <= k < i as int ==> rat_lt(
                    (#[trigger] pts_views(points@)[k]).x,
                    pts_views(points@)[k + 1].x,
                ),
        decreases np - i,
    {
        let p = points[i];
        let q = points[i + 1];
        if !p.x().lt(&q.x()) {
            proof {
                assert(p@ == pts_views(points@)[i as int]);
                assert(q@ == pts_views(points@)[i as int + 1]);
                assert(!points_increasing(pts_views(points@)));
            }
            return Err(NumError::DomainError);
        }
        i += 1;
    }
    let ghost pv = pts_views(points@);
    proof {
        assert(points_increasing(pv));
    }
    let mut w: usize = 0;
    while w < np
        invariant
            w <= np,
            np as int == points@.len(),
            pv == pts_views(points@),
            forall|k: int| 0 <= k < w as int ==> crate::points::point_wf(#[trigger] pv[k]),
        decreases np - w,
    {
        let p = points[w];
        proof {
            use_type_invariant(&p);
            Point::lemma_inv_wf(p);
            assert(p@ == pv[w as int]);
        }
        w += 1;
    }
    proof {
        assert(pts_wf(pv));
    }
    let dds = match leading_differences(points) {
        Ok(v) => v,
        Err(e) => {
            return Err(e);
        },
    };
    let mut acc = Ratio::from_int(0);
    let mut basis = Ratio::from_int(1);
    let mut j: usize = 0;
    while j < np
        invariant
            j <= np,
            np as int == points@.len(),
            pv == pts_views(points@),
            pts_wf(pv),
            points_increasing(pv),
            rat_wf(x@),
            dds@.len() == np as int,
            forall|jj: int|
                0 <= jj < np as int ==> rat_eqv(
                    (#[trigger] dds@[jj])@,
                    divided_difference(pv, 0, jj),
                ),
            forall|jj: int| 0 <= jj < np as int ==> (#[trigger] dds@[jj]).inv(),
            rat_eqv(acc@, newton_prefix(pv, x@, j as int)),
            rat_eqv(basis@, newton_basis(pv, x@, j as int)),
        decreases np - j,
    {
        let ghost acc_old = acc@;
        let ghost basis_old = basis@;
        let dj = dds[j];
        proof {
            assert(rat_eqv(dj@, divided_difference(pv, 0, j as int)));
        }
        let term = match dj.mul(&basis) {
            Ok(v) => v,
            Err(e) => {
                return Err(e);
            },
        };
        let nacc = match acc.add(&term) {
            Ok(v) => v,
            Err(e) => {
                return Err(e);
            },
        };
        let pj = points[j];
        proof {
            use_type_invariant(&pj);
            Point::lemma_inv_wf(pj);
            assert(pj@ == pv[j as int]);
        }
        let fac = match x.sub(&pj.x()) {
            Ok(v) => v,
            Err(e) => {
                return Err(e);
            },
        };
        let nbasis_v = match basis.mul(&fac) {
            Ok(v) => v,
            Err(e) => {
                return Err(e);
            },
        };
        proof {
            use_type_invariant(&dj);
            Ratio::lemma_inv_wf(dj);
            use_type_invariant(&term);
            Ratio::lemma_inv_wf(term);
            use_type_invariant(&nacc);
            Ratio::lemma_inv_wf(nacc);
            use_type_invariant(&fac);
            Ratio::lemma_inv_wf(fac);
            use_type_invariant(&nbasis_v);
            Ratio::lemma_inv_wf(nbasis_v);
            use_type_invariant(&basis);
            Ratio::lemma_inv_wf(basis);
            use_type_invariant(&acc);
            Ratio::lemma_inv_wf(acc);
            let sdd = divided_difference(pv, 0, j as int);
            let sbasis = newton_basis(pv, x@, j as int);
            lemma_dd_wf(pv, 0, j as int);
            lemma_newton_basis_wf(pv, x@, j as int);
            lemma_mul_congr(dj@, sdd, basis_old, sbasis);
            lemma_ops_wf(dj@, basis_old);
            lemma_ops_wf(sdd, sbasis);
            lemma_eqv_trans(term@, rat_mul(dj@, basis_old), rat_mul(sdd, sbasis));
            lemma_add_congr(acc_old, acc_old, term@, rat_mul(sdd, sbasis));
            lemma_ops_wf(acc_old, term@);
            lemma_ops_wf(acc_old, rat_mul(sdd, sbasis));
            lemma_eqv_trans(
                nacc@,
                rat_add(acc_old, term@),
                rat_add(acc_old, rat_mul(sdd, sbasis)),
            );
            lemma_newton_prefix_wf(pv, x@, j as int);
            lemma_newton_prefix_wf(pv, x@, j as int + 1);
            lemma_add_congr(acc_old, newton_prefix(pv, x@, j as int), rat_mul(sdd, sbasis), rat_mul(sdd, sbasis));
            lemma_ops_wf(newton_prefix(pv, x@, j as int), rat_mul(sdd, sbasis));
            lemma_eqv_trans(
                nacc@,
                rat_add(acc_old, rat_mul(sdd, sbasis)),
                newton_prefix(pv, x@, j as int + 1),
            );
            lemma_sub_congr(x@, x@, pj@.x, pv[j as int].x);
            lemma_ops_wf(x@, pj@.x);
            lemma_mul_congr(basis_old, sbasis, fac@, rat_sub(x@, pv[j as int].x));
            lemma_ops_wf(basis_old, fac@);
            lemma_ops_wf(sbasis, rat_sub(x@, pv[j as int].x));
            lemma_eqv_trans(
                nbasis_v@,
                rat_mul(basis_old, fac@),
                newton_basis(pv, x@, j as int + 1),
            );
        }
        acc = nacc;
        basis = nbasis_v;
        j += 1;
    }
    Ok(acc)
}

} // verus!
