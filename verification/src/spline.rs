//! Spline building.
//!
//! Given ordered sample points, determines per-segment polynomial
//! coefficients (three per segment for a quadratic spline, four for
//! a cubic one) by assembling and exactly solving one dense linear
//! system built from three constraint families: interpolation at
//! both segment endpoints, derivative continuity at the interior
//! knots, and boundary conditions (a caller-supplied first
//! derivative at the left end for the quadratic spline; natural —
//! zero second derivative — ends for the cubic one). The returned
//! coefficients are certified: the stated constraint equations are
//! checked exactly before the result is handed out, so the contract
//! holds of every returned value.

use vstd::prelude::*;
use vstd::pervasive::VecAdditionalExecFns;

use crate::error::NumError;
use crate::points::{Point, PointV};
use crate::rat::{
    lemma_add_congr, lemma_eqv_sym, lemma_eqv_trans, lemma_mul_congr, lemma_ops_wf, rat_add,
    rat_eqv, rat_is_zero, rat_lt, rat_mul, rat_of_int, rat_wf, rat_zero, rats_wf, Rat, Ratio,
};

verus! {

/// The quadratic segment polynomial `a x^2 + b x + c` with the
/// coefficients of segment `seg` of the flat coefficient sequence.
pub open spec fn qeval(cs: Seq<Rat>, seg: int, x: Rat) -> Rat {
    rat_add(
        rat_add(rat_mul(cs[3 * seg], rat_mul(x, x)), rat_mul(cs[3 * seg + 1], x)),
        cs[3 * seg + 2],
    )
}

/// The derivative `2 a x + b` of the quadratic segment polynomial.
pub open spec fn qderiv(cs: Seq<Rat>, seg: int, x: Rat) -> Rat {
    rat_add(rat_mul(rat_mul(rat_of_int(2), cs[3 * seg]), x), cs[3 * seg + 1])
}

/// The cubic segment polynomial `a x^3 + b x^2 + c x + d`.
pub open spec fn ceval(cs: Seq<Rat>, seg: int, x: Rat) -> Rat {
    rat_add(
        rat_add(
            rat_add(
                rat_mul(cs[4 * seg], rat_mul(rat_mul(x, x), x)),
                rat_mul(cs[4 * seg + 1], rat_mul(x, x)),
            ),
            rat_mul(cs[4 * seg + 2], x),
        ),
        cs[4 * seg + 3],
    )
}

/// The first derivative `3 a x^2 + 2 b x + c` of the cubic segment
/// polynomial.
pub open spec fn cderiv1(cs: Seq<Rat>, seg: int, x: Rat) -> Rat {
    rat_add(
        rat_add(
            rat_mul(rat_mul(rat_of_int(3), cs[4 * seg]), rat_mul(x, x)),
            rat_mul(rat_mul(rat_of_int(2), cs[4 * seg + 1]), x),
        ),
        cs[4 * seg + 2],
    )
}

/// The second derivative `6 a x + 2 b` of the cubic segment
/// polynomial.
pub open spec fn cderiv2(cs: Seq<Rat>, seg: int, x: Rat) -> Rat {
    rat_add(
        rat_mul(rat_mul(rat_of_int(6), cs[4 * seg]), x),
        rat_mul(rat_of_int(2), cs[4 * seg + 1]),
    )
}

/// The abscissas are strictly increasing.
pub open spec fn points_increasing(pts: Seq<PointV>) -> bool {
    forall|i: int| 0 <= i < pts.len() - 1 ==> rat_lt((#[trigger] pts[i]).x, pts[i + 1].x)
}

/// The quadratic spline constraints hold of the coefficients:
/// interpolation at both endpoints of every segment, first-derivative
/// continuity at every interior knot, and the given first derivative
/// at the left boundary.
pub open spec fn quad_spline_ok(pts: Seq<PointV>, d0: Rat, cs: Seq<Rat>) -> bool {
    let m = pts.len() - 1;
    &&& cs.len() == 3 * m
    &&& forall|i: int|
        0 <= i < m ==> rat_eqv(qeval(cs, i, (#[trigger] pts[i]).x), pts[i].y) && rat_eqv(
            qeval(cs, i, pts[i + 1].x),
            pts[i + 1].y,
        )
    &&& forall|i: int|
        1 <= i < m ==> rat_eqv(
            qderiv(cs, i - 1, (#[trigger] pts[i]).x),
            qderiv(cs, i, pts[i].x),
        )
    &&& rat_eqv(qderiv(cs, 0, pts[0].x), d0)
}

/// The cubic spline constraints hold of the coefficients:
/// interpolation at both endpoints of every segment, first- and
/// second-derivative continuity at every interior knot, and natural
/// (zero second derivative) boundaries.
pub open spec fn cubic_spline_ok(pts: Seq<PointV>, cs: Seq<Rat>) -> bool {
    let m = pts.len() - 1;
    &&& cs.len() == 4 * m
    &&& forall|i: int|
        0 <= i < m ==> rat_eqv(ceval(cs, i, (#[trigger] pts[i]).x), pts[i].y) && rat_eqv(
            ceval(cs, i, pts[i + 1].x),
            pts[i + 1].y,
        )
    &&& forall|i: int|
        1 <= i < m ==> rat_eqv(
            cderiv1(cs, i - 1, (#[trigger] pts[i]).x),
            cderiv1(cs, i, pts[i].x),
        ) && rat_eqv(cderiv2(cs, i - 1, pts[i].x), cderiv2(cs, i, pts[i].x))
    &&& rat_eqv(cderiv2(cs, 0, pts[0].x), rat_zero())
    &&& rat_eqv(cderiv2(cs, m - 1, pts[m as int].x), rat_zero())
}

/// All entries of a `Ratio` vector satisfy the rational invariant.
pub open spec fn ents_inv(s: Seq<Ratio>) -> bool {
    forall|i: int| 0 <= i < s.len() ==> (#[trigger] s[i]).inv()
}

/// The models of a `Ratio` vector's entries.
pub open spec fn ents_rats(s: Seq<Ratio>) -> Seq<Rat> {
    s.map_values(|c: Ratio| c@)
}

/// All rows of a `Ratio` matrix have length `n` and entries
/// satisfying the invariant.
pub open spec fn rows_shape(m: Seq<Vec<Ratio>>, n: int) -> bool {
    forall|i: int| 0 <= i < m.len() ==> (#[trigger] m[i])@.len() == n && ents_inv(m[i]@)
}

/// Appends `count` zero entries to a row.
fn push_zeros(row: &mut Vec<Ratio>, count: usize)
    requires
        ents_inv(old(row)@),
        old(row)@.len() + count <= usize::MAX,
    ensures
        final(row)@.len() == old(row)@.len() + count,
        ents_inv(final(row)@),
{
    let mut k: usize = 0;
    while k < count
        invariant
            k <= count,
            row@.len() == old(row)@.len() + k,
            old(row)@.len() + count <= usize::MAX,
            ents_inv(row@),
        decreases count - k,
    {
        let z = Ratio::from_int(0);
        proof {
            use_type_invariant(&z);
        }
        row.push(z);
        k += 1;
    }
}

/// Swaps two rows of the matrix; only the shape is tracked.
fn swap_rows(m: &mut Vec<Vec<Ratio>>, i: usize, j: usize, Ghost(n): Ghost<int>)
    requires
        i < old(m)@.len(),
        j < old(m)@.len(),
        i < j,
        rows_shape(old(m)@, n),
    ensures
        final(m)@.len() == old(m)@.len(),
        rows_shape(final(m)@, n),
{
    let rj = m.remove(j);
    let ri = m.remove(i);
    m.insert(i, rj);
    m.insert(j, ri);
    proof {
        assert forall|k: int| 0 <= k < m@.len() implies (#[trigger] m@[k])@.len() == n && ents_inv(
            m@[k]@,
        ) by {}
    }
}

/// Swaps two entries of a vector; only the shape is tracked.
fn swap_entries(v: &mut Vec<Ratio>, i: usize, j: usize)
    requires
        i < old(v)@.len(),
        j < old(v)@.len(),
        i < j,
        ents_inv(old(v)@),
    ensures
        final(v)@.len() == old(v)@.len(),
        ents_inv(final(v)@),
{
    let rj = v.remove(j);
    let ri = v.remove(i);
    v.insert(i, rj);
    v.insert(j, ri);
    proof {
        assert forall|k: int| 0 <= k < v@.len() implies (#[trigger] v@[k]).inv() by {}
    }
}

/// Solves the square system by exact Gaussian elimination with row
/// exchange on zero pivots. The certified spline builders check the
/// returned candidate against their constraint equations, so this
/// solver only promises a well-shaped result.
fn gauss_solve(rows_in: Vec<Vec<Ratio>>, rhs_in: Vec<Ratio>, n: usize) -> (r: Result<
    Vec<Ratio>,
    NumError,
>)
    requires
        rows_in@.len() == n,
        rhs_in@.len() == n,
        rows_shape(rows_in@, n as int),
        ents_inv(rhs_in@),
    ensures
        match r {
            Ok(x) => x@.len() == n && ents_inv(x@),
            Err(e) => e == NumError::SingularSystem || e == NumError::Overflow,
        },
{
    let mut m = rows_in;
    let mut rhs = rhs_in;
    let mut col: usize = 0;
    while col < n
        invariant
            col <= n,
            m@.len() == n,
            rhs@.len() == n,
            rows_shape(m@, n as int),
            ents_inv(rhs@),
        decreases n - col,
    {
        // Find a row at or below `col` with a nonzero entry in this
        // column.
        let mut p: usize = col;
        let mut found = false;
        let mut r: usize = col;
        while r < n
            invariant
                col <= r <= n,
                m@.len() == n,
                rows_shape(m@, n as int),
                found ==> col <= p < n,
                !found ==> p == col,
            decreases n - r,
        {
            if !found {
                let entry = m[r][col];
                if !entry.is_zero() {
                    p = r;
                    found = true;
                }
            }
            r += 1;
        }
        if !found {
            return Err(NumError::SingularSystem);
        }
        if p > col {
            swap_rows(&mut m, col, p, Ghost(n as int));
            swap_entries(&mut rhs, col, p);
        }
        let pivot = m[col][col];
        proof {
            assert(m@[col as int]@[col as int].inv());
        }
        if pivot.is_zero() {
            return Err(NumError::SingularSystem);
        }
        // Eliminate the column below the pivot.
        let mut r: usize = col + 1;
        while r < n
            invariant
                col < n,
                col < r <= n + 1,
                m@.len() == n,
                rhs@.len() == n,
                rows_shape(m@, n as int),
                ents_inv(rhs@),
                pivot.inv(),
                !rat_is_zero(pivot@),
            decreases n + 1 - r,
        {
            if r >= n {
                break;
            }
            let head = m[r][col];
            proof {
                assert(m@[r as int]@[col as int].inv());
            }
            if !head.is_zero() {
                let factor = match head.div(&pivot) {
                    Ok(v) => v,
                    Err(e) => {
                        return Err(e);
                    },
                };
                proof {
                    use_type_invariant(&factor);
                }
                let mut newrow: Vec<Ratio> = Vec::new();
                let mut c: usize = 0;
                while c < n
                    invariant
                        c <= n,
                        col < n,
                        r < n,
                        m@.len() == n,
                        rows_shape(m@, n as int),
                        factor.inv(),
                        newrow@.len() == c,
                        ents_inv(newrow@),
                    decreases n - c,
                {
                    let mv = m[r][c];
                    let pv = m[col][c];
                    proof {
                        assert(m@[r as int]@[c as int].inv());
                        assert(m@[col as int]@[c as int].inv());
                    }
                    let t = match factor.mul(&pv) {
                        Ok(v) => v,
                        Err(e) => {
                            return Err(e);
                        },
                    };
                    let nv = match mv.sub(&t) {
                        Ok(v) => v,
                        Err(e) => {
                            return Err(e);
                        },
                    };
                    proof {
                        use_type_invariant(&nv);
                    }
                    newrow.push(nv);
                    c += 1;
                }
                m.set(r, newrow);
                let rv = rhs[r];
                let pvr = rhs[col];
                proof {
                    assert(rhs@[r as int].inv());
                    assert(rhs@[col as int].inv());
                }
                let t = match factor.mul(&pvr) {
                    Ok(v) => v,
                    Err(e) => {
                        return Err(e);
                    },
                };
                let nv = match rv.sub(&t) {
                    Ok(v) => v,
                    Err(e) => {
                        return Err(e);
                    },
                };
                proof {
                    use_type_invariant(&nv);
                }
                rhs.set(r, nv);
            }
            r += 1;
        }
        col += 1;
    }
    // Back substitution.
    let mut x: Vec<Ratio> = Vec::new();
    let mut k: usize = 0;
    while k < n
        invariant
            k <= n,
            x@.len() == k,
            ents_inv(x@),
        decreases n - k,
    {
        let z = Ratio::from_int(0);
        proof {
            use_type_invariant(&z);
        }
        x.push(z);
        k += 1;
    }
    let mut irev: usize = 0;
    while irev < n
        invariant
            irev <= n,
            m@.len() == n,
            rhs@.len() == n,
            rows_shape(m@, n as int),
            ents_inv(rhs@),
            x@.len() == n,
            ents_inv(x@),
        decreases n - irev,
    {
        let i = n - 1 - irev;
        let mut acc = rhs[i];
        proof {
            assert(rhs@[i as int].inv());
        }
        let mut j: usize = i + 1;
        while j < n
            invariant
                i < n,
                i < j <= n,
                m@.len() == n,
                rows_shape(m@, n as int),
                x@.len() == n,
                ents_inv(x@),
                acc.inv(),
            decreases n - j,
        {
            let mv = m[i][j];
            let xv = x[j];
            proof {
                assert(m@[i as int]@[j as int].inv());
                assert(x@[j as int].inv());
            }
            let t = match mv.mul(&xv) {
                Ok(v) => v,
                Err(e) => {
                    return Err(e);
                },
            };
            let nv = match acc.sub(&t) {
                Ok(v) => v,
                Err(e) => {
                    return Err(e);
                },
            };
            proof {
                use_type_invariant(&nv);
            }
            acc = nv;
            j += 1;
        }
        let diag = m[i][i];
        proof {
            assert(m@[i as int]@[i as int].inv());
        }
        if diag.is_zero() {
            return Err(NumError::SingularSystem);
        }
        let xi = match acc.div(&diag) {
            Ok(v) => v,
            Err(e) => {
                return Err(e);
            },
        };
        proof {
            use_type_invariant(&xi);
        }
        x.set(i, xi);
        irev += 1;
    }
    Ok(x)
}

/// Evaluates the quadratic segment polynomial, pinned to [`qeval`].
fn qeval_exec(cs: &Vec<Ratio>, seg: usize, x: &Ratio) -> (r: Result<Ratio, NumError>)
    requires
        ents_inv(cs@),
        3 * seg + 2 < cs@.len(),
    ensures
        match r {
            Ok(v) => rat_eqv(v@, qeval(ents_rats(cs@), seg as int, x@)),
            Err(e) => e == NumError::Overflow,
        },
{
    proof {
        use_type_invariant(x);
        Ratio::lemma_inv_wf(*x);
    }
    let clen = cs.len();
    proof {
        assert(3 * seg + 2 < clen);
    }
    let a = cs[3 * seg];
    let b = cs[3 * seg + 1];
    let c = cs[3 * seg + 2];
    proof {
        assert(cs@[3 * seg as int].inv());
        assert(cs@[3 * seg as int + 1].inv());
        assert(cs@[3 * seg as int + 2].inv());
        Ratio::lemma_inv_wf(a);
        Ratio::lemma_inv_wf(b);
        Ratio::lemma_inv_wf(c);
    }
    let xx = match x.mul(x) {
        Ok(v) => v,
        Err(e) => {
            return Err(e);
        },
    };
    let t1 = match a.mul(&xx) {
        Ok(v) => v,
        Err(e) => {
            return Err(e);
        },
    };
    let t2 = match b.mul(x) {
        Ok(v) => v,
        Err(e) => {
            return Err(e);
        },
    };
    let s = match t1.add(&t2) {
        Ok(v) => v,
        Err(e) => {
            return Err(e);
        },
    };
    let out = match s.add(&c) {
        Ok(v) => v,
        Err(e) => {
            return Err(e);
        },
    };
    proof {
        use_type_invariant(&xx);
        Ratio::lemma_inv_wf(xx);
        use_type_invariant(&t1);
        Ratio::lemma_inv_wf(t1);
        use_type_invariant(&t2);
        Ratio::lemma_inv_wf(t2);
        use_type_invariant(&s);
        Ratio::lemma_inv_wf(s);
        use_type_invariant(&out);
        Ratio::lemma_inv_wf(out);
        let sa = ents_rats(cs@)[3 * seg as int];
        let sb = ents_rats(cs@)[3 * seg as int + 1];
        let sc = ents_rats(cs@)[3 * seg as int + 2];
        assert(sa == a@ && sb == b@ && sc == c@);
        lemma_ops_wf(x@, x@);
        lemma_ops_wf(sa, rat_mul(x@, x@));
        lemma_ops_wf(sb, x@);
        lemma_mul_congr(a@, sa, xx@, rat_mul(x@, x@));
        lemma_ops_wf(a@, xx@);
        lemma_eqv_trans(t1@, rat_mul(a@, xx@), rat_mul(sa, rat_mul(x@, x@)));
        lemma_add_congr(t1@, rat_mul(sa, rat_mul(x@, x@)), t2@, rat_mul(sb, x@));
        lemma_ops_wf(t1@, t2@);
        lemma_ops_wf(sb, x@);
        lemma_ops_wf(rat_mul(sa, rat_mul(x@, x@)), rat_mul(sb, x@));
        lemma_eqv_trans(
            s@,
            rat_add(t1@, t2@),
            rat_add(rat_mul(sa, rat_mul(x@, x@)), rat_mul(sb, x@)),
        );
        lemma_add_congr(
            s@,
            rat_add(rat_mul(sa, rat_mul(x@, x@)), rat_mul(sb, x@)),
            c@,
            sc,
        );
        lemma_ops_wf(s@, c@);
        lemma_ops_wf(rat_add(rat_mul(sa, rat_mul(x@, x@)), rat_mul(sb, x@)), sc);
        lemma_eqv_trans(
            out@,
            rat_add(s@, c@),
            qeval(ents_rats(cs@), seg as int, x@),
        );
    }
    Ok(out)
}

/// Evaluates the quadratic segment derivative, pinned to [`qderiv`].
fn qderiv_exec(cs: &Vec<Ratio>, seg: usize, x: &Ratio) -> (r: Result<Ratio, NumError>)
    requires
        ents_inv(cs@),
        3 * seg + 2 < cs@.len(),
    ensures
        match r {
            Ok(v) => rat_eqv(v@, qderiv(ents_rats(cs@), seg as int, x@)),
            Err(e) => e == NumError::Overflow,
        },
{
    proof {
        use_type_invariant(x);
        Ratio::lemma_inv_wf(*x);
    }
    let clen = cs.len();
    proof {
        assert(3 * seg + 2 < clen);
    }
    let a = cs[3 * seg];
    let b = cs[3 * seg + 1];
    proof {
        assert(cs@[3 * seg as int].inv());
        assert(cs@[3 * seg as int + 1].inv());
        Ratio::lemma_inv_wf(a);
        Ratio::lemma_inv_wf(b);
    }
    let two = Ratio::from_int(2);
    let ta = match two.mul(&a) {
        Ok(v) => v,
        Err(e) => {
            return Err(e);
        },
    };
    let tx = match ta.mul(x) {
        Ok(v) => v,
        Err(e) => {
            return Err(e);
        },
    };
    let out = match tx.add(&b) {
        Ok(v) => v,
        Err(e) => {
            return Err(e);
        },
    };
    proof {
        use_type_invariant(&ta);
        Ratio::lemma_inv_wf(ta);
        use_type_invariant(&tx);
        Ratio::lemma_inv_wf(tx);
        use_type_invariant(&out);
        Ratio::lemma_inv_wf(out);
        let sa = ents_rats(cs@)[3 * seg as int];
        let sb = ents_rats(cs@)[3 * seg as int + 1];
        assert(sa == a@ && sb == b@);
        lemma_mul_congr(ta@, rat_mul(rat_of_int(2), sa), x@, x@);
        lemma_ops_wf(ta@, x@);
        lemma_ops_wf(rat_of_int(2), sa);
        lemma_ops_wf(rat_mul(rat_of_int(2), sa), x@);
        lemma_eqv_trans(tx@, rat_mul(ta@, x@), rat_mul(rat_mul(rat_of_int(2), sa), x@));
        lemma_add_congr(tx@, rat_mul(rat_mul(rat_of_int(2), sa), x@), b@, sb);
        lemma_ops_wf(tx@, b@);
        lemma_ops_wf(rat_mul(rat_mul(rat_of_int(2), sa), x@), sb);
        lemma_eqv_trans(out@, rat_add(tx@, b@), qderiv(ents_rats(cs@), seg as int, x@));
    }
    Ok(out)
}

/// Evaluates the cubic segment polynomial, pinned to [`ceval`].
fn ceval_exec(cs: &Vec<Ratio>, seg: usize, x: &Ratio) -> (r: Result<Ratio, NumError>)
    requires
        ents_inv(cs@),
        4 * seg + 3 < cs@.len(),
    ensures
        match r {
            Ok(v) => rat_eqv(v@, ceval(ents_rats(cs@), seg as int, x@)),
            Err(e) => e == NumError::Overflow,
        },
{
    proof {
        use_type_invariant(x);
        Ratio::lemma_inv_wf(*x);
    }
    let clen = cs.len();
    proof {
        assert(4 * seg + 3 < clen);
    }
    let a = cs[4 * seg];
    let b = cs[4 * seg + 1];
    let c = cs[4 * seg + 2];
    let d = cs[4 * seg + 3];
    proof {
        assert(cs@[4 * seg as int].inv());
        assert(cs@[4 * seg as int + 1].inv());
        assert(cs@[4 * seg as int + 2].inv());
        assert(cs@[4 * seg as int + 3].inv());
        Ratio::lemma_inv_wf(a);
        Ratio::lemma_inv_wf(b);
        Ratio::lemma_inv_wf(c);
        Ratio::lemma_inv_wf(d);
    }
    let xx = match x.mul(x) {
        Ok(v) => v,
        Err(e) => {
            return Err(e);
        },
    };
    let xxx = match xx.mul(x) {
        Ok(v) => v,
        Err(e) => {
            return Err(e);
        },
    };
    let t1 = match a.mul(&xxx) {
        Ok(v) => v,
        Err(e) => {
            return Err(e);
        },
    };
    let t2 = match b.mul(&xx) {
        Ok(v) => v,
        Err(e) => {
            return Err(e);
        },
    };
    let t3 = match c.mul(x) {
        Ok(v) => v,
        Err(e) => {
            return Err(e);
        },
    };
    let s1 = match t1.add(&t2) {
        Ok(v) => v,
        Err(e) => {
            return Err(e);
        },
    };
    let s2 = match s1.add(&t3) {
        Ok(v) => v,
        Err(e) => {
            return Err(e);
        },
    };
    let out = match s2.add(&d) {
        Ok(v) => v,
        Err(e) => {
            return Err(e);
        },
    };
    proof {
        use_type_invariant(&xx);
        Ratio::lemma_inv_wf(xx);
        use_type_invariant(&xxx);
        Ratio::lemma_inv_wf(xxx);
        use_type_invariant(&t1);
        Ratio::lemma_inv_wf(t1);
        use_type_invariant(&t2);
        Ratio::lemma_inv_wf(t2);
        use_type_invariant(&t3);
        Ratio::lemma_inv_wf(t3);
        use_type_invariant(&s1);
        Ratio::lemma_inv_wf(s1);
        use_type_invariant(&s2);
        Ratio::lemma_inv_wf(s2);
        use_type_invariant(&out);
        Ratio::lemma_inv_wf(out);
        let sa = ents_rats(cs@)[4 * seg as int];
        let sb = ents_rats(cs@)[4 * seg as int + 1];
        let sc = ents_rats(cs@)[4 * seg as int + 2];
        let sd = ents_rats(cs@)[4 * seg as int + 3];
        assert(sa == a@ && sb == b@ && sc == c@ && sd == d@);
        let mx2 = rat_mul(x@, x@);
        let mx3 = rat_mul(rat_mul(x@, x@), x@);
        lemma_ops_wf(x@, x@);
        lemma_ops_wf(mx2, x@);
        lemma_ops_wf(sc, x@);
        // xxx ~ x^3
        lemma_mul_congr(xx@, mx2, x@, x@);
        lemma_ops_wf(xx@, x@);
        lemma_eqv_trans(xxx@, rat_mul(xx@, x@), mx3);
        // t1 ~ a x^3
        lemma_mul_congr(a@, sa, xxx@, mx3);
        lemma_ops_wf(a@, xxx@);
        lemma_ops_wf(sa, mx3);
        lemma_eqv_trans(t1@, rat_mul(a@, xxx@), rat_mul(sa, mx3));
        // t2 ~ b x^2
        lemma_mul_congr(b@, sb, xx@, mx2);
        lemma_ops_wf(b@, xx@);
        lemma_ops_wf(sb, mx2);
        lemma_eqv_trans(t2@, rat_mul(b@, xx@), rat_mul(sb, mx2));
        // s1 ~ a x^3 + b x^2
        lemma_add_congr(t1@, rat_mul(sa, mx3), t2@, rat_mul(sb, mx2));
        lemma_ops_wf(t1@, t2@);
        lemma_ops_wf(rat_mul(sa, mx3), rat_mul(sb, mx2));
        lemma_eqv_trans(s1@, rat_add(t1@, t2@), rat_add(rat_mul(sa, mx3), rat_mul(sb, mx2)));
        // s2 ~ a x^3 + b x^2 + c x
        lemma_add_congr(
            s1@,
            rat_add(rat_mul(sa, mx3), rat_mul(sb, mx2)),
            t3@,
            rat_mul(sc, x@),
        );
        lemma_ops_wf(s1@, t3@);
        lemma_ops_wf(sc, x@);
        lemma_ops_wf(rat_add(rat_mul(sa, mx3), rat_mul(sb, mx2)), rat_mul(sc, x@));
        lemma_eqv_trans(
            s2@,
            rat_add(s1@, t3@),
            rat_add(rat_add(rat_mul(sa, mx3), rat_mul(sb, mx2)), rat_mul(sc, x@)),
        );
        // out ~ full polynomial
        lemma_add_congr(
            s2@,
            rat_add(rat_add(rat_mul(sa, mx3), rat_mul(sb, mx2)), rat_mul(sc, x@)),
            d@,
            sd,
        );
        lemma_ops_wf(s2@, d@);
        lemma_ops_wf(
            rat_add(rat_add(rat_mul(sa, mx3), rat_mul(sb, mx2)), rat_mul(sc, x@)),
            sd,
        );
        lemma_eqv_trans(out@, rat_add(s2@, d@), ceval(ents_rats(cs@), seg as int, x@));
    }
    Ok(out)
}

/// Evaluates the cubic first derivative, pinned to [`cderiv1`].
fn cderiv1_exec(cs: &Vec<Ratio>, seg: usize, x: &Ratio) -> (r: Result<Ratio, NumError>)
    requires
        ents_inv(cs@),
        4 * seg + 3 < cs@.len(),
    ensures
        match r {
            Ok(v) => rat_eqv(v@, cderiv1(ents_rats(cs@), seg as int, x@)),
            Err(e) => e == NumError::Overflow,
        },
{
    proof {
        use_type_invariant(x);
        Ratio::lemma_inv_wf(*x);
    }
    let clen = cs.len();
    proof {
        assert(4 * seg + 3 < clen);
    }
    let a = cs[4 * seg];
    let b = cs[4 * seg + 1];
    let c = cs[4 * seg + 2];
    proof {
        assert(cs@[4 * seg as int].inv());
        assert(cs@[4 * seg as int + 1].inv());
        assert(cs@[4 * seg as int + 2].inv());
        Ratio::lemma_inv_wf(a);
        Ratio::lemma_inv_wf(b);
        Ratio::lemma_inv_wf(c);
    }
    let three = Ratio::from_int(3);
    let two = Ratio::from_int(2);
    let xx = match x.mul(x) {
        Ok(v) => v,
        Err(e) => {
            return Err(e);
        },
    };
    let ta = match three.mul(&a) {
        Ok(v) => v,
        Err(e) => {
            return Err(e);
        },
    };
    let t1 = match ta.mul(&xx) {
        Ok(v) => v,
        Err(e) => {
            return Err(e);
        },
    };
    let tb = match two.mul(&b) {
        Ok(v) => v,
        Err(e) => {
            return Err(e);
        },
    };
    let t2 = match tb.mul(x) {
        Ok(v) => v,
        Err(e) => {
            return Err(e);
        },
    };
    let s1 = match t1.add(&t2) {
        Ok(v) => v,
        Err(e) => {
            return Err(e);
        },
    };
    let out = match s1.add(&c) {
        Ok(v) => v,
        Err(e) => {
            return Err(e);
        },
    };
    proof {
        use_type_invariant(&xx);
        Ratio::lemma_inv_wf(xx);
        use_type_invariant(&ta);
        Ratio::lemma_inv_wf(ta);
        use_type_invariant(&t1);
        Ratio::lemma_inv_wf(t1);
        use_type_invariant(&tb);
        Ratio::lemma_inv_wf(tb);
        use_type_invariant(&t2);
        Ratio::lemma_inv_wf(t2);
        use_type_invariant(&s1);
        Ratio::lemma_inv_wf(s1);
        use_type_invariant(&out);
        Ratio::lemma_inv_wf(out);
        let sa = ents_rats(cs@)[4 * seg as int];
        let sb = ents_rats(cs@)[4 * seg as int + 1];
        let sc = ents_rats(cs@)[4 * seg as int + 2];
        assert(sa == a@ && sb == b@ && sc == c@);
        let mx2 = rat_mul(x@, x@);
        lemma_ops_wf(x@, x@);
        lemma_ops_wf(rat_of_int(3), sa);
        lemma_ops_wf(rat_of_int(2), sb);
        // t1 ~ 3 a x^2
        lemma_mul_congr(ta@, rat_mul(rat_of_int(3), sa), xx@, mx2);
        lemma_ops_wf(ta@, xx@);
        lemma_ops_wf(rat_mul(rat_of_int(3), sa), mx2);
        lemma_eqv_trans(t1@, rat_mul(ta@, xx@), rat_mul(rat_mul(rat_of_int(3), sa), mx2));
        // t2 ~ 2 b x
        lemma_mul_congr(tb@, rat_mul(rat_of_int(2), sb), x@, x@);
        lemma_ops_wf(tb@, x@);
        lemma_ops_wf(rat_mul(rat_of_int(2), sb), x@);
        lemma_eqv_trans(t2@, rat_mul(tb@, x@), rat_mul(rat_mul(rat_of_int(2), sb), x@));
        // s1 ~ 3 a x^2 + 2 b x
        lemma_add_congr(
            t1@,
            rat_mul(rat_mul(rat_of_int(3), sa), mx2),
            t2@,
            rat_mul(rat_mul(rat_of_int(2), sb), x@),
        );
        lemma_ops_wf(t1@, t2@);
        lemma_ops_wf(
            rat_mul(rat_mul(rat_of_int(3), sa), mx2),
            rat_mul(rat_mul(rat_of_int(2), sb), x@),
        );
        lemma_eqv_trans(
            s1@,
            rat_add(t1@, t2@),
            rat_add(
                rat_mul(rat_mul(rat_of_int(3), sa), mx2),
                rat_mul(rat_mul(rat_of_int(2), sb), x@),
            ),
        );
        lemma_add_congr(
            s1@,
            rat_add(
                rat_mul(rat_mul(rat_of_int(3), sa), mx2),
                rat_mul(rat_mul(rat_of_int(2), sb), x@),
            ),
            c@,
            sc,
        );
        lemma_ops_wf(s1@, c@);
        lemma_ops_wf(
            rat_add(
                rat_mul(rat_mul(rat_of_int(3), sa), mx2),
                rat_mul(rat_mul(rat_of_int(2), sb), x@),
            ),
            sc,
        );
        lemma_eqv_trans(out@, rat_add(s1@, c@), cderiv1(ents_rats(cs@), seg as int, x@));
    }
    Ok(out)
}

/// Evaluates the cubic second derivative, pinned to [`cderiv2`].
fn cderiv2_exec(cs: &Vec<Ratio>, seg: usize, x: &Ratio) -> (r: Result<Ratio, NumError>)
    requires
        ents_inv(cs@),
        4 * seg + 3 < cs@.len(),
    ensures
        match r {
            Ok(v) => rat_eqv(v@, cderiv2(ents_rats(cs@), seg as int, x@)),
            Err(e) => e == NumError::Overflow,
        },
{
    proof {
        use_type_invariant(x);
        Ratio::lemma_inv_wf(*x);
    }
    let clen = cs.len();
    proof {
        assert(4 * seg + 3 < clen);
    }
    let a = cs[4 * seg];
    let b = cs[4 * seg + 1];
    proof {
        assert(cs@[4 * seg as int].inv());
        assert(cs@[4 * seg as int + 1].inv());
        Ratio::lemma_inv_wf(a);
        Ratio::lemma_inv_wf(b);
    }
    let six = Ratio::from_int(6);
    let two = Ratio::from_int(2);
    let ta = match six.mul(&a) {
        Ok(v) => v,
        Err(e) => {
            return Err(e);
        },
    };
    let t1 = match ta.mul(x) {
        Ok(v) => v,
        Err(e) => {
            return Err(e);
        },
    };
    let t2 = match two.mul(&b) {
        Ok(v) => v,
        Err(e) => {
            return Err(e);
        },
    };
    let out = match t1.add(&t2) {
        Ok(v) => v,
        Err(e) => {
            return Err(e);
        },
    };
    proof {
        use_type_invariant(&ta);
        Ratio::lemma_inv_wf(ta);
        use_type_invariant(&t1);
        Ratio::lemma_inv_wf(t1);
        use_type_invariant(&t2);
        Ratio::lemma_inv_wf(t2);
        use_type_invariant(&out);
        Ratio::lemma_inv_wf(out);
        let sa = ents_rats(cs@)[4 * seg as int];
        let sb = ents_rats(cs@)[4 * seg as int + 1];
        assert(sa == a@ && sb == b@);
        lemma_ops_wf(rat_of_int(6), sa);
        lemma_ops_wf(rat_of_int(2), sb);
        lemma_mul_congr(ta@, rat_mul(rat_of_int(6), sa), x@, x@);
        lemma_ops_wf(ta@, x@);
        lemma_ops_wf(rat_mul(rat_of_int(6), sa), x@);
        lemma_eqv_trans(t1@, rat_mul(ta@, x@), rat_mul(rat_mul(rat_of_int(6), sa), x@));
        lemma_add_congr(
            t1@,
            rat_mul(rat_mul(rat_of_int(6), sa), x@),
            t2@,
            rat_mul(rat_of_int(2), sb),
        );
        lemma_ops_wf(t1@, t2@);
        lemma_ops_wf(rat_mul(rat_mul(rat_of_int(6), sa), x@), rat_mul(rat_of_int(2), sb));
        lemma_eqv_trans(out@, rat_add(t1@, t2@), cderiv2(ents_rats(cs@), seg as int, x@));
    }
    Ok(out)
}

/// The models of the sample points.
pub open spec fn pts_views(s: Seq<Point>) -> Seq<PointV> {
    s.map_values(|p: Point| p@)
}

/// Builds one interpolation row: a zero block, the monomials of the
/// segment's unknowns evaluated at `x`, and a zero tail. `per` is
/// the number of unknowns per segment, `m` the number of segments.
fn monomial_row(
    per: usize,
    m: usize,
    seg: usize,
    monos: Vec<Ratio>,
) -> (r: Result<Vec<Ratio>, NumError>)
    requires
        seg < m,
        monos@.len() == per,
        ents_inv(monos@),
        per * m <= usize::MAX,
    ensures
        match r {
            Ok(row) => row@.len() == per * m && ents_inv(row@),
            Err(e) => e == NumError::Overflow,
        },
{
    proof {
        assert(per * seg + per <= per * m && per * seg >= 0 && per * ((m - seg - 1) as usize) >= 0
            && per * seg + per + per * ((m - seg - 1) as usize) == per * m) by (nonlinear_arith)
            requires
                seg < m,
                per * m <= usize::MAX,
        ;
    }
    let mut row: Vec<Ratio> = Vec::new();
    push_zeros(&mut row, per * seg);
    let mut t: usize = 0;
    while t < per
        invariant
            t <= per,
            per * seg + per <= per * m <= usize::MAX,
            monos@.len() == per,
            ents_inv(monos@),
            ents_inv(row@),
            row@.len() == per * seg + t,
        decreases per - t,
    {
        let c = monos[t];
        proof {
            use_type_invariant(&c);
        }
        row.push(c);
        t += 1;
    }
    push_zeros(&mut row, per * (m - seg - 1));
    proof {
        assert(row@.len() == per * m);
    }
    Ok(row)
}

/// Quadratic spline coefficients for the given points: three
/// coefficients per segment, determined by the interpolation,
/// continuity, and left-derivative boundary constraints, solved
/// exactly and certified against [`quad_spline_ok`] before being
/// returned.
#[verifier::rlimit(100)]
#[verifier::spinoff_prover]
pub fn generate_parabolic_spline_coefficients(
    points: &Vec<Point>,
    first_derivative: &Ratio,
) -> (r: Result<Vec<Ratio>, NumError>)
    ensures
        match r {
            Ok(cs) => {
                &&& points@.len() >= 2
                &&& points_increasing(pts_views(points@))
                &&& ents_inv(cs@)
                &&& quad_spline_ok(pts_views(points@), first_derivative@, ents_rats(cs@))
            },
            Err(e) => {
                &&& (e == NumError::DomainError || e == NumError::SingularSystem || e
                    == NumError::Overflow)
                &&& (e == NumError::DomainError <==> (points@.len() < 2 || !points_increasing(
                    pts_views(points@),
                )))
            },
        },
{
    let np = points.len();
    if np < 2 {
        proof {
            assert(points@.len() < 2);
        }
        return Err(NumError::DomainError);
    }
    let mut i: usize = 0;
    while i < np - 1
        invariant
            np as int == points@.len(),
            np >= 2,
            i <= np - 1,
            forall|k: int|
                0 <= k < i as int ==> rat_lt(
                    (#[trigger] pts_views(points@)[k]).x,
                    pts_views(points@)[k + 1].x,
                ),
        decreases np - 1 - i,
    {
        let p = points[i];
        let q = points[i + 1];
        if !p.x().lt(&q.x()) {
            proof {
                assert(p@ == pts_views(points@)[i as int]);
                assert(q@ == pts_views(points@)[i as int + 1]);
                assert(!rat_lt(pts_views(points@)[i as int].x, pts_views(points@)[i as int + 1].x));
                assert(!points_increasing(pts_views(points@)));
            }
            return Err(NumError::DomainError);
        }
        i += 1;
    }
    proof {
        assert(points_increasing(pts_views(points@)));
    }
    let m = np - 1;
    let n = match m.checked_mul(3) {
        Some(v) => v,
        None => {
            return Err(NumError::Overflow);
        },
    };
    let one = Ratio::from_int(1);
    let zero = Ratio::from_int(0);
    let two = Ratio::from_int(2);
    // Interpolation rows: each segment's polynomial takes the sample
    // value at both of its endpoints.
    let mut rows: Vec<Vec<Ratio>> = Vec::new();
    let mut rhs: Vec<Ratio> = Vec::new();
    let mut seg: usize = 0;
    while seg < m
        invariant
            np as int == points@.len(),
            np >= 2,
            points_increasing(pts_views(points@)),
            m == np - 1,
            n == 3 * m,
            seg <= m,
            rows@.len() == 2 * seg,
            rhs@.len() == 2 * seg,
            rows_shape(rows@, n as int),
            ents_inv(rhs@),
        decreases m - seg,
    {
        let mut e: usize = 0;
        while e < 2
            invariant
                np as int == points@.len(),
                np >= 2,
                points_increasing(pts_views(points@)),
                m == np - 1,
                n == 3 * m,
                seg < m,
                e <= 2,
                rows@.len() == 2 * seg + e,
                rhs@.len() == 2 * seg + e,
                rows_shape(rows@, n as int),
                ents_inv(rhs@),
            decreases 2 - e,
        {
            let p = points[seg + e];
            let x = p.x();
            proof {
                use_type_invariant(&x);
            }
            let xx = match x.mul(&x) {
                Ok(v) => v,
                Err(er) => {
                    return Err(er);
                },
            };
            proof {
                use_type_invariant(&xx);
                use_type_invariant(&one);
            }
            let mut monos: Vec<Ratio> = Vec::new();
            monos.push(xx);
            monos.push(x);
            monos.push(one);
            let row = match monomial_row(3, m, seg, monos) {
                Ok(v) => v,
                Err(er) => {
                    return Err(er);
                },
            };
            rows.push(row);
            let y = p.y();
            proof {
                use_type_invariant(&y);
            }
            rhs.push(y);
            e += 1;
        }
        seg += 1;
    }
    // First-derivative continuity at each interior knot.
    let mut k: usize = 1;
    while k < m
        invariant
            np as int == points@.len(),
            np >= 2,
            points_increasing(pts_views(points@)),
            m == np - 1,
            n == 3 * m,
            1 <= k <= m,
            rows@.len() == 2 * m + (k - 1),
            rhs@.len() == 2 * m + (k - 1),
            rows_shape(rows@, n as int),
            ents_inv(rhs@),
        decreases m - k,
    {
        let p = points[k];
        let x = p.x();
        proof {
            use_type_invariant(&x);
            use_type_invariant(&two);
            use_type_invariant(&one);
            use_type_invariant(&zero);
        }
        let tx = match two.mul(&x) {
            Ok(v) => v,
            Err(er) => {
                return Err(er);
            },
        };
        let ntx = match tx.neg() {
            Ok(v) => v,
            Err(er) => {
                return Err(er);
            },
        };
        let none_ = match one.neg() {
            Ok(v) => v,
            Err(er) => {
                return Err(er);
            },
        };
        proof {
            use_type_invariant(&tx);
            use_type_invariant(&ntx);
            use_type_invariant(&none_);
        }
        let mut row: Vec<Ratio> = Vec::new();
        proof {
            assert(3 * (k - 1) + 6 <= n) by (nonlinear_arith)
                requires
                    1 <= k < m,
                    n == 3 * m,
            ;
        }
        push_zeros(&mut row, 3 * (k - 1));
        row.push(tx);
        row.push(one);
        row.push(zero);
        row.push(ntx);
        row.push(none_);
        row.push(zero);
        proof {
            assert(n >= row@.len());
        }
        let pad = n - row.len();
        push_zeros(&mut row, pad);
        rows.push(row);
        rhs.push(zero);
        k += 1;
    }
    // Left boundary: the first derivative of the first segment.
    let p0b = points[0];
    let x0b = p0b.x();
    proof {
        use_type_invariant(&x0b);
        use_type_invariant(&two);
        use_type_invariant(&one);
        use_type_invariant(&zero);
        use_type_invariant(first_derivative);
    }
    let tx0 = match two.mul(&x0b) {
        Ok(v) => v,
        Err(er) => {
            return Err(er);
        },
    };
    proof {
        use_type_invariant(&tx0);
    }
    let mut brow: Vec<Ratio> = Vec::new();
    brow.push(tx0);
    brow.push(one);
    brow.push(zero);
    let bpad = n - brow.len();
    push_zeros(&mut brow, bpad);
    rows.push(brow);
    rhs.push(*first_derivative);
    proof {
        assert(rows@.len() == n);
        assert(rhs@.len() == n);
    }
    let cs = match gauss_solve(rows, rhs, n) {
        Ok(v) => v,
        Err(er) => {
            return Err(er);
        },
    };
    // Certify every constraint of the spline exactly; a failed check
    // signals a singular or wrongly assembled system.
    let ghost pv = pts_views(points@);
    let ghost sc = ents_rats(cs@);
    let mut segc: usize = 0;
    while segc < m
        invariant
            np as int == points@.len(),
            np >= 2,
            points_increasing(pts_views(points@)),
            m == np - 1,
            cs@.len() == 3 * m,
            ents_inv(cs@),
            segc <= m,
            pv == pts_views(points@),
            sc == ents_rats(cs@),
            forall|i2: int|
                0 <= i2 < segc as int ==> rat_eqv(
                    qeval(sc, i2, (#[trigger] pv[i2]).x),
                    pv[i2].y,
                ) && rat_eqv(qeval(sc, i2, pv[i2 + 1].x), pv[i2 + 1].y),
        decreases m - segc,
    {
        let p = points[segc];
        let q = points[segc + 1];
        let v1 = match qeval_exec(&cs, segc, &p.x()) {
            Ok(v) => v,
            Err(er) => {
                return Err(er);
            },
        };
        let v2 = match qeval_exec(&cs, segc, &q.x()) {
            Ok(v) => v,
            Err(er) => {
                return Err(er);
            },
        };
        proof {
            use_type_invariant(&v1);
            Ratio::lemma_inv_wf(v1);
            use_type_invariant(&v2);
            Ratio::lemma_inv_wf(v2);
            use_type_invariant(&p);
            Point::lemma_inv_wf(p);
            use_type_invariant(&q);
            Point::lemma_inv_wf(q);
        }
        if !v1.eq_val(&p.y()) || !v2.eq_val(&q.y()) {
            return Err(NumError::SingularSystem);
        }
        proof {
            lemma_ents_wf(cs@);
            assert(p@ == pv[segc as int]);
            assert(q@ == pv[segc as int + 1]);
            lemma_q_wf(sc, segc as int, pv[segc as int].x);
            lemma_q_wf(sc, segc as int, pv[segc as int + 1].x);
            lemma_eqv_chain(v1@, qeval(sc, segc as int, pv[segc as int].x), pv[segc as int].y);
            lemma_eqv_chain(
                v2@,
                qeval(sc, segc as int, pv[segc as int + 1].x),
                pv[segc as int + 1].y,
            );
        }
        segc += 1;
    }
    let mut kc: usize = 1;
    while kc < m
        invariant
            np as int == points@.len(),
            np >= 2,
            points_increasing(pts_views(points@)),
            m == np - 1,
            cs@.len() == 3 * m,
            ents_inv(cs@),
            1 <= kc <= m,
            pv == pts_views(points@),
            sc == ents_rats(cs@),
            forall|i2: int|
                1 <= i2 < kc as int ==> rat_eqv(
                    qderiv(sc, i2 - 1, (#[trigger] pv[i2]).x),
                    qderiv(sc, i2, pv[i2].x),
                ),
        decreases m - kc,
    {
        let p = points[kc];
        let d1 = match qderiv_exec(&cs, kc - 1, &p.x()) {
            Ok(v) => v,
            Err(er) => {
                return Err(er);
            },
        };
        let d2 = match qderiv_exec(&cs, kc, &p.x()) {
            Ok(v) => v,
            Err(er) => {
                return Err(er);
            },
        };
        proof {
            use_type_invariant(&d1);
            Ratio::lemma_inv_wf(d1);
            use_type_invariant(&d2);
            Ratio::lemma_inv_wf(d2);
            use_type_invariant(&p);
            Point::lemma_inv_wf(p);
        }
        if !d1.eq_val(&d2) {
            return Err(NumError::SingularSystem);
        }
        proof {
            lemma_ents_wf(cs@);
            assert(p@ == pv[kc as int]);
            lemma_q_wf(sc, kc as int - 1, pv[kc as int].x);
            lemma_q_wf(sc, kc as int, pv[kc as int].x);
            lemma_eqv_mid(
                d1@,
                qderiv(sc, kc as int - 1, pv[kc as int].x),
                d2@,
                qderiv(sc, kc as int, pv[kc as int].x),
            );
        }
        kc += 1;
    }
    let pc0 = points[0];
    let dc0 = match qderiv_exec(&cs, 0, &pc0.x()) {
        Ok(v) => v,
        Err(er) => {
            return Err(er);
        },
    };
    proof {
        use_type_invariant(&dc0);
        Ratio::lemma_inv_wf(dc0);
        use_type_invariant(first_derivative);
        Ratio::lemma_inv_wf(*first_derivative);
    }
    if !dc0.eq_val(first_derivative) {
        return Err(NumError::SingularSystem);
    }
    proof {
        lemma_ents_wf(cs@);
        use_type_invariant(&pc0);
        Point::lemma_inv_wf(pc0);
        assert(pc0@ == pv[0]);
        lemma_q_wf(sc, 0, pv[0].x);
        lemma_eqv_chain(dc0@, qderiv(sc, 0, pv[0].x), first_derivative@);
    }
    Ok(cs)
}

/// Cubic spline coefficients for the given points: four
/// coefficients per segment, determined by the interpolation,
/// first- and second-derivative continuity, and natural boundary
/// constraints, solved exactly and certified against
/// [`cubic_spline_ok`] before being returned.
#[verifier::rlimit(100)]
#[verifier::spinoff_prover]
pub fn generate_cubic_spline_coefficients(points: &Vec<Point>) -> (r: Result<
    Vec<Ratio>,
    NumError,
>)
    ensures
        match r {
            Ok(cs) => {
                &&& points@.len() >= 2
                &&& points_increasing(pts_views(points@))
                &&& ents_inv(cs@)
                &&& cubic_spline_ok(pts_views(points@), ents_rats(cs@))
            },
            Err(e) => {
                &&& (e == NumError::DomainError || e == NumError::SingularSystem || e
                    == NumError::Overflow)
                &&& (e == NumError::DomainError <==> (points@.len() < 2 || !points_increasing(
                    pts_views(points@),
                )))
            },
        },
{
    let np = points.len();
    if np < 2 {
        proof {
            assert(points@.len() < 2);
        }
        return Err(NumError::DomainError);
    }
    let mut i: usize = 0;
    while i < np - 1
        invariant
            np as int == points@.len(),
            np >= 2,
            i <= np - 1,
            forall|k: int|
                0 <= k < i as int ==> rat_lt(
                    (#[trigger] pts_views(points@)[k]).x,
                    pts_views(points@)[k + 1].x,
                ),
        decreases np - 1 - i,
    {
        let p = points[i];
        let q = points[i + 1];
        if !p.x().lt(&q.x()) {
            proof {
                assert(p@ == pts_views(points@)[i as int]);
                assert(q@ == pts_views(points@)[i as int + 1]);
                assert(!rat_lt(pts_views(points@)[i as int].x, pts_views(points@)[i as int + 1].x));
                assert(!points_increasing(pts_views(points@)));
            }
            return Err(NumError::DomainError);
        }
        i += 1;
    }
    proof {
        assert(points_increasing(pts_views(points@)));
    }
    let m = np - 1;
    let n = match m.checked_mul(4) {
        Some(v) => v,
        None => {
            return Err(NumError::Overflow);
        },
    };
    let one = Ratio::from_int(1);
    let zero = Ratio::from_int(0);
    let two = Ratio::from_int(2);
    let three = Ratio::from_int(3);
    let six = Ratio::from_int(6);
    let mut rows: Vec<Vec<Ratio>> = Vec::new();
    let mut rhs: Vec<Ratio> = Vec::new();
    // Interpolation rows: each segment's polynomial takes the sample
    // value at both of its endpoints.
    let mut seg: usize = 0;
    while seg < m
        invariant
            np as int == points@.len(),
            np >= 2,
            points_increasing(pts_views(points@)),
            m == np - 1,
            n == 4 * m,
            seg <= m,
            rows@.len() == 2 * seg,
            rhs@.len() == 2 * seg,
            rows_shape(rows@, n as int),
            ents_inv(rhs@),
        decreases m - seg,
    {
        let mut e: usize = 0;
        while e < 2
            invariant
                np as int == points@.len(),
                np >= 2,
                points_increasing(pts_views(points@)),
                m == np - 1,
                n == 4 * m,
                seg < m,
                e <= 2,
                rows@.len() == 2 * seg + e,
                rhs@.len() == 2 * seg + e,
                rows_shape(rows@, n as int),
                ents_inv(rhs@),
            decreases 2 - e,
        {
            let p = points[seg + e];
            let x = p.x();
            proof {
                use_type_invariant(&x);
            }
            let xx = match x.mul(&x) {
                Ok(v) => v,
                Err(er) => {
                    return Err(er);
                },
            };
            let xxx = match xx.mul(&x) {
                Ok(v) => v,
                Err(er) => {
                    return Err(er);
                },
            };
            proof {
                use_type_invariant(&xx);
                use_type_invariant(&xxx);
                use_type_invariant(&one);
            }
            let mut monos: Vec<Ratio> = Vec::new();
            monos.push(xxx);
            monos.push(xx);
            monos.push(x);
            monos.push(one);
            let row = match monomial_row(4, m, seg, monos) {
                Ok(v) => v,
                Err(er) => {
                    return Err(er);
                },
            };
            rows.push(row);
            let y = p.y();
            proof {
                use_type_invariant(&y);
            }
            rhs.push(y);
            e += 1;
        }
        seg += 1;
    }
    // First-derivative continuity at each interior knot.
    let mut k: usize = 1;
    while k < m
        invariant
            np as int == points@.len(),
            np >= 2,
            points_increasing(pts_views(points@)),
            m == np - 1,
            n == 4 * m,
            1 <= k <= m,
            rows@.len() == 2 * m + (k - 1),
            rhs@.len() == 2 * m + (k - 1),
            rows_shape(rows@, n as int),
            ents_inv(rhs@),
        decreases m - k,
    {
        let p = points[k];
        let x = p.x();
        proof {
            use_type_invariant(&x);
            use_type_invariant(&two);
            use_type_invariant(&three);
            use_type_invariant(&one);
            use_type_invariant(&zero);
        }
        let xx = match x.mul(&x) {
            Ok(v) => v,
            Err(er) => {
                return Err(er);
            },
        };
        let t3xx = match three.mul(&xx) {
            Ok(v) => v,
            Err(er) => {
                return Err(er);
            },
        };
        let t2x = match two.mul(&x) {
            Ok(v) => v,
            Err(er) => {
                return Err(er);
            },
        };
        let n3xx = match t3xx.neg() {
            Ok(v) => v,
            Err(er) => {
                return Err(er);
            },
        };
        let n2x = match t2x.neg() {
            Ok(v) => v,
            Err(er) => {
                return Err(er);
            },
        };
        let none_ = match one.neg() {
            Ok(v) => v,
            Err(er) => {
                return Err(er);
            },
        };
        proof {
            use_type_invariant(&t3xx);
            use_type_invariant(&t2x);
            use_type_invariant(&n3xx);
            use_type_invariant(&n2x);
            use_type_invariant(&none_);
        }
        let mut row: Vec<Ratio> = Vec::new();
        proof {
            assert(4 * (k - 1) + 8 <= n) by (nonlinear_arith)
                requires
                    1 <= k < m,
                    n == 4 * m,
            ;
        }
        push_zeros(&mut row, 4 * (k - 1));
        row.push(t3xx);
        row.push(t2x);
        row.push(one);
        row.push(zero);
        row.push(n3xx);
        row.push(n2x);
        row.push(none_);
        row.push(zero);
        let pad = n - row.len();
        push_zeros(&mut row, pad);
        rows.push(row);
        rhs.push(zero);
        k += 1;
    }
    // Second-derivative continuity at each interior knot.
    let mut k2: usize = 1;
    while k2 < m
        invariant
            np as int == points@.len(),
            np >= 2,
            points_increasing(pts_views(points@)),
            m == np - 1,
            n == 4 * m,
            1 <= k2 <= m,
            rows@.len() == 2 * m + (m - 1) + (k2 - 1),
            rhs@.len() == 2 * m + (m - 1) + (k2 - 1),
            rows_shape(rows@, n as int),
            ents_inv(rhs@),
        decreases m - k2,
    {
        let p = points[k2];
        let x = p.x();
        proof {
            use_type_invariant(&x);
            use_type_invariant(&two);
            use_type_invariant(&six);
            use_type_invariant(&zero);
        }
        let t6x = match six.mul(&x) {
            Ok(v) => v,
            Err(er) => {
                return Err(er);
            },
        };
        let n6x = match t6x.neg() {
            Ok(v) => v,
            Err(er) => {
                return Err(er);
            },
        };
        let ntwo = match two.neg() {
            Ok(v) => v,
            Err(er) => {
                return Err(er);
            },
        };
        proof {
            use_type_invariant(&t6x);
            use_type_invariant(&n6x);
            use_type_invariant(&ntwo);
        }
        let mut row: Vec<Ratio> = Vec::new();
        proof {
            assert(4 * (k2 - 1) + 8 <= n) by (nonlinear_arith)
                requires
                    1 <= k2 < m,
                    n == 4 * m,
            ;
        }
        push_zeros(&mut row, 4 * (k2 - 1));
        row.push(t6x);
        row.push(two);
        row.push(zero);
        row.push(zero);
        row.push(n6x);
        row.push(ntwo);
        row.push(zero);
        row.push(zero);
        let pad = n - row.len();
        push_zeros(&mut row, pad);
        rows.push(row);
        rhs.push(zero);
        k2 += 1;
    }
    // Natural boundaries: zero second derivative at both ends.
    let pfirst = points[0];
    let xf = pfirst.x();
    proof {
        use_type_invariant(&xf);
        use_type_invariant(&six);
        use_type_invariant(&two);
        use_type_invariant(&zero);
    }
    let t6f = match six.mul(&xf) {
        Ok(v) => v,
        Err(er) => {
            return Err(er);
        },
    };
    proof {
        use_type_invariant(&t6f);
    }
    let mut frow: Vec<Ratio> = Vec::new();
    frow.push(t6f);
    frow.push(two);
    frow.push(zero);
    frow.push(zero);
    let fpad = n - frow.len();
    push_zeros(&mut frow, fpad);
    rows.push(frow);
    rhs.push(zero);
    let plast = points[np - 1];
    let xl = plast.x();
    proof {
        use_type_invariant(&xl);
    }
    let t6l = match six.mul(&xl) {
        Ok(v) => v,
        Err(er) => {
            return Err(er);
        },
    };
    proof {
        use_type_invariant(&t6l);
        assert(4 * (m - 1) + 4 == n) by (nonlinear_arith)
            requires
                m >= 1,
                n == 4 * m,
        ;
    }
    let mut lrow: Vec<Ratio> = Vec::new();
    push_zeros(&mut lrow, 4 * (m - 1));
    lrow.push(t6l);
    lrow.push(two);
    lrow.push(zero);
    lrow.push(zero);
    rows.push(lrow);
    rhs.push(zero);
    proof {
        assert(rows@.len() == n);
        assert(rhs@.len() == n);
    }
    let cs = match gauss_solve(rows, rhs, n) {
        Ok(v) => v,
        Err(er) => {
            return Err(er);
        },
    };
    // Certify every constraint of the spline exactly.
    let ghost pv = pts_views(points@);
    let ghost sc = ents_rats(cs@);
    let mut segc: usize = 0;
    while segc < m
        invariant
            np as int == points@.len(),
            np >= 2,
            points_increasing(pts_views(points@)),
            m == np - 1,
            cs@.len() == 4 * m,
            ents_inv(cs@),
            segc <= m,
            pv == pts_views(points@),
            sc == ents_rats(cs@),
            forall|i2: int|
                0 <= i2 < segc as int ==> rat_eqv(
                    #[trigger] ceval(sc, i2, pv[i2].x),
                    pv[i2].y,
                ) && rat_eqv(ceval(sc, i2, pv[i2 + 1].x), pv[i2 + 1].y),
        decreases m - segc,
    {
        let p = points[segc];
        let q = points[segc + 1];
        let v1 = match ceval_exec(&cs, segc, &p.x()) {
            Ok(v) => v,
            Err(er) => {
                return Err(er);
            },
        };
        let v2 = match ceval_exec(&cs, segc, &q.x()) {
            Ok(v) => v,
            Err(er) => {
                return Err(er);
            },
        };
        proof {
            use_type_invariant(&v1);
            Ratio::lemma_inv_wf(v1);
            use_type_invariant(&v2);
            Ratio::lemma_inv_wf(v2);
            use_type_invariant(&p);
            Point::lemma_inv_wf(p);
            use_type_invariant(&q);
            Point::lemma_inv_wf(q);
        }
        if !v1.eq_val(&p.y()) || !v2.eq_val(&q.y()) {
            return Err(NumError::SingularSystem);
        }
        proof {
            lemma_ents_wf(cs@);
            assert(p@ == pv[segc as int]);
            assert(q@ == pv[segc as int + 1]);
            lemma_c_wf(sc, segc as int, pv[segc as int].x);
            lemma_c_wf(sc, segc as int, pv[segc as int + 1].x);
            lemma_eqv_chain(v1@, ceval(sc, segc as int, pv[segc as int].x), pv[segc as int].y);
            lemma_eqv_chain(
                v2@,
                ceval(sc, segc as int, pv[segc as int + 1].x),
                pv[segc as int + 1].y,
            );
            assert(rat_eqv(ceval(sc, segc as int, pv[segc as int].x), pv[segc as int].y));
            assert(rat_eqv(
                ceval(sc, segc as int, pv[segc as int + 1].x),
                pv[segc as int + 1].y,
            ));
            assert forall|i2: int| 0 <= i2 < segc as int + 1 implies rat_eqv(
                #[trigger] ceval(sc, i2, pv[i2].x),
                pv[i2].y,
            ) && rat_eqv(ceval(sc, i2, pv[i2 + 1].x), pv[i2 + 1].y) by {
                if i2 < segc as int {
                    assert(rat_eqv(ceval(sc, i2, pv[i2].x), pv[i2].y));
                    assert(rat_eqv(ceval(sc, i2, pv[i2 + 1].x), pv[i2 + 1].y));
                }
            }
        }
        segc += 1;
    }
    let mut kc: usize = 1;
    while kc < m
        invariant
            np as int == points@.len(),
            np >= 2,
            points_increasing(pts_views(points@)),
            m == np - 1,
            cs@.len() == 4 * m,
            ents_inv(cs@),
            1 <= kc <= m,
            pv == pts_views(points@),
            sc == ents_rats(cs@),
            forall|i2: int|
                1 <= i2 < kc as int ==> rat_eqv(
                    cderiv1(sc, i2 - 1, (#[trigger] pv[i2]).x),
                    cderiv1(sc, i2, pv[i2].x),
                ) && rat_eqv(cderiv2(sc, i2 - 1, pv[i2].x), cderiv2(sc, i2, pv[i2].x)),
        decreases m - kc,
    {
        let p = points[kc];
        let d1a = match cderiv1_exec(&cs, kc - 1, &p.x()) {
            Ok(v) => v,
            Err(er) => {
                return Err(er);
            },
        };
        let d1b = match cderiv1_exec(&cs, kc, &p.x()) {
            Ok(v) => v,
            Err(er) => {
                return Err(er);
            },
        };
        let d2a = match cderiv2_exec(&cs, kc - 1, &p.x()) {
            Ok(v) => v,
            Err(er) => {
                return Err(er);
            },
        };
        let d2b = match cderiv2_exec(&cs, kc, &p.x()) {
            Ok(v) => v,
            Err(er) => {
                return Err(er);
            },
        };
        proof {
            use_type_invariant(&d1a);
            Ratio::lemma_inv_wf(d1a);
            use_type_invariant(&d1b);
            Ratio::lemma_inv_wf(d1b);
            use_type_invariant(&d2a);
            Ratio::lemma_inv_wf(d2a);
            use_type_invariant(&d2b);
            Ratio::lemma_inv_wf(d2b);
            use_type_invariant(&p);
            Point::lemma_inv_wf(p);
        }
        if !d1a.eq_val(&d1b) || !d2a.eq_val(&d2b) {
            return Err(NumError::SingularSystem);
        }
        proof {
            lemma_ents_wf(cs@);
            assert(p@ == pv[kc as int]);
            lemma_c_wf(sc, kc as int - 1, pv[kc as int].x);
            lemma_c_wf(sc, kc as int, pv[kc as int].x);
            lemma_eqv_mid(
                d1a@,
                cderiv1(sc, kc as int - 1, pv[kc as int].x),
                d1b@,
                cderiv1(sc, kc as int, pv[kc as int].x),
            );
            lemma_eqv_mid(
                d2a@,
                cderiv2(sc, kc as int - 1, pv[kc as int].x),
                d2b@,
                cderiv2(sc, kc as int, pv[kc as int].x),
            );
        }
        kc += 1;
    }
    let pc0 = points[0];
    let dz0 = match cderiv2_exec(&cs, 0, &pc0.x()) {
        Ok(v) => v,
        Err(er) => {
            return Err(er);
        },
    };
    let zval = Ratio::from_int(0);
    proof {
        use_type_invariant(&dz0);
        Ratio::lemma_inv_wf(dz0);
        use_type_invariant(&pc0);
        Point::lemma_inv_wf(pc0);
    }
    if !dz0.eq_val(&zval) {
        return Err(NumError::SingularSystem);
    }
    proof {
        lemma_ents_wf(cs@);
        assert(pc0@ == pv[0]);
        lemma_c_wf(sc, 0, pv[0].x);
        lemma_eqv_chain(dz0@, cderiv2(sc, 0, pv[0].x), rat_zero());
    }
    let pcl = points[np - 1];
    let dzl = match cderiv2_exec(&cs, m - 1, &pcl.x()) {
        Ok(v) => v,
        Err(er) => {
            return Err(er);
        },
    };
    proof {
        use_type_invariant(&dzl);
        Ratio::lemma_inv_wf(dzl);
        use_type_invariant(&pcl);
        Point::lemma_inv_wf(pcl);
    }
    if !dzl.eq_val(&zval) {
        return Err(NumError::SingularSystem);
    }
    proof {
        lemma_ents_wf(cs@);
        assert(pcl@ == pv[m as int]);
        lemma_c_wf(sc, m as int - 1, pv[m as int].x);
        lemma_eqv_chain(dzl@, cderiv2(sc, m as int - 1, pv[m as int].x), rat_zero());
    }
    Ok(cs)
}

/// Entries satisfying the invariant have well-formed models.
pub proof fn lemma_ents_wf(s: Seq<Ratio>)
    requires
        ents_inv(s),
    ensures
        rats_wf(ents_rats(s)),
{
    assert forall|i: int| 0 <= i < ents_rats(s).len() implies rat_wf(
        #[trigger] ents_rats(s)[i],
    ) by {
        Ratio::lemma_inv_wf(s[i]);
    }
}

/// The quadratic segment evaluations of well-formed coefficients are
/// well-formed.
pub proof fn lemma_q_wf(cs: Seq<Rat>, seg: int, x: Rat)
    requires
        rats_wf(cs),
        rat_wf(x),
        0 <= seg,
        3 * seg + 2 < cs.len(),
    ensures
        rat_wf(qeval(cs, seg, x)),
        rat_wf(qderiv(cs, seg, x)),
{
    lemma_ops_wf(x, x);
    lemma_ops_wf(cs[3 * seg], rat_mul(x, x));
    lemma_ops_wf(cs[3 * seg + 1], x);
    lemma_ops_wf(rat_mul(cs[3 * seg], rat_mul(x, x)), rat_mul(cs[3 * seg + 1], x));
    lemma_ops_wf(
        rat_add(rat_mul(cs[3 * seg], rat_mul(x, x)), rat_mul(cs[3 * seg + 1], x)),
        cs[3 * seg + 2],
    );
    lemma_ops_wf(rat_of_int(2), cs[3 * seg]);
    lemma_ops_wf(rat_mul(rat_of_int(2), cs[3 * seg]), x);
    lemma_ops_wf(rat_mul(rat_mul(rat_of_int(2), cs[3 * seg]), x), cs[3 * seg + 1]);
}

/// The cubic segment evaluations of well-formed coefficients are
/// well-formed.
pub proof fn lemma_c_wf(cs: Seq<Rat>, seg: int, x: Rat)
    requires
        rats_wf(cs),
        rat_wf(x),
        0 <= seg,
        4 * seg + 3 < cs.len(),
    ensures
        rat_wf(ceval(cs, seg, x)),
        rat_wf(cderiv1(cs, seg, x)),
        rat_wf(cderiv2(cs, seg, x)),
{
    let mx2 = rat_mul(x, x);
    let mx3 = rat_mul(rat_mul(x, x), x);
    lemma_ops_wf(x, x);
    lemma_ops_wf(mx2, x);
    lemma_ops_wf(cs[4 * seg], mx3);
    lemma_ops_wf(cs[4 * seg + 1], mx2);
    lemma_ops_wf(cs[4 * seg + 2], x);
    lemma_ops_wf(rat_mul(cs[4 * seg], mx3), rat_mul(cs[4 * seg + 1], mx2));
    lemma_ops_wf(
        rat_add(rat_mul(cs[4 * seg], mx3), rat_mul(cs[4 * seg + 1], mx2)),
        rat_mul(cs[4 * seg + 2], x),
    );
    lemma_ops_wf(
        rat_add(
            rat_add(rat_mul(cs[4 * seg], mx3), rat_mul(cs[4 * seg + 1], mx2)),
            rat_mul(cs[4 * seg + 2], x),
        ),
        cs[4 * seg + 3],
    );
    lemma_ops_wf(rat_of_int(3), cs[4 * seg]);
    lemma_ops_wf(rat_mul(rat_of_int(3), cs[4 * seg]), mx2);
    lemma_ops_wf(rat_of_int(2), cs[4 * seg + 1]);
    lemma_ops_wf(rat_mul(rat_of_int(2), cs[4 * seg + 1]), x);
    lemma_ops_wf(
        rat_mul(rat_mul(rat_of_int(3), cs[4 * seg]), mx2),
        rat_mul(rat_mul(rat_of_int(2), cs[4 * seg + 1]), x),
    );
    lemma_ops_wf(
        rat_add(
            rat_mul(rat_mul(rat_of_int(3), cs[4 * seg]), mx2),
            rat_mul(rat_mul(rat_of_int(2), cs[4 * seg + 1]), x),
        ),
        cs[4 * seg + 2],
    );
    lemma_ops_wf(rat_of_int(6), cs[4 * seg]);
    lemma_ops_wf(rat_mul(rat_of_int(6), cs[4 * seg]), x);
    lemma_ops_wf(rat_mul(rat_mul(rat_of_int(6), cs[4 * seg]), x), rat_mul(rat_of_int(2), cs[4 * seg + 1]));
}

/// From `a ~ b` (computed against spec) and `a ~ c` (the check),
/// conclude `b ~ c`: the spec-level constraint holds.
pub proof fn lemma_eqv_chain(a: Rat, b: Rat, c: Rat)
    requires
        rat_wf(a),
        rat_wf(b),
        rat_wf(c),
        rat_eqv(a, b),
        rat_eqv(a, c),
    ensures
        rat_eqv(b, c),
{
    lemma_eqv_sym(a, b);
    lemma_eqv_trans(b, a, c);
}

/// From `a ~ b`, `c ~ d` (computed against spec) and `a ~ c` (the
/// check), conclude `b ~ d`.
pub proof fn lemma_eqv_mid(a: Rat, b: Rat, c: Rat, d: Rat)
    requires
        rat_wf(a),
        rat_wf(b),
        rat_wf(c),
        rat_wf(d),
        rat_eqv(a, b),
        rat_eqv(c, d),
        rat_eqv(a, c),
    ensures
        rat_eqv(b, d),
{
    lemma_eqv_sym(a, b);
    lemma_eqv_trans(b, a, c);
    lemma_eqv_trans(b, c, d);
}

/// The query lies within segment `i` of the point set.
pub open spec fn in_segment(pts: Seq<PointV>, i: int, x: Rat) -> bool {
    crate::rat::rat_le(pts[i].x, x) && crate::rat::rat_le(x, pts[i + 1].x)
}

/// Evaluates the quadratic spline at `x`: the first segment whose
/// range contains `x` is used. A query outside every segment is a
/// [`NumError::DomainError`].
pub fn parabolic_spline(points: &Vec<Point>, coefficients: &Vec<Ratio>, x: &Ratio) -> (r: Result<
    Ratio,
    NumError,
>)
    requires
        ents_inv(coefficients@),
    ensures
        ({
            let pv = pts_views(points@);
            let sc = ents_rats(coefficients@);
            let m = points@.len() - 1;
            match r {
                Ok(v) => exists|i: int|
                    0 <= i < m && #[trigger] in_segment(pv, i, x@) && (forall|j: int|
                        0 <= j < i ==> !in_segment(pv, j, x@)) && rat_eqv(v@, qeval(sc, i, x@)),
                Err(e) => {
                    &&& (e == NumError::DomainError || e == NumError::Overflow)
                    &&& (e == NumError::DomainError <==> (coefficients@.len() != 3 * m || forall|
                        i: int,
                    |
                        0 <= i < m ==> !in_segment(pv, i, x@)))
                },
            }
        }),
{
    let np = points.len();
    if np < 1 {
        return Err(NumError::DomainError);
    }
    let m = np - 1;
    let clen = coefficients.len();
    let n3 = match m.checked_mul(3) {
        Some(v) => v,
        None => {
            proof {
                assert(clen as int != 3 * (points@.len() - 1));
            }
            return Err(NumError::DomainError);
        },
    };
    if clen != n3 {
        return Err(NumError::DomainError);
    }
    let mut i: usize = 0;
    while i < m
        invariant
            np as int == points@.len(),
            np >= 1,
            m == np - 1,
            coefficients@.len() == 3 * m,
            ents_inv(coefficients@),
            i <= m,
            forall|j: int| 0 <= j < i as int ==> !in_segment(pts_views(points@), j, x@),
        decreases m - i,
    {
        let p = points[i];
        let q = points[i + 1];
        proof {
            use_type_invariant(&p);
            use_type_invariant(&q);
            assert(p@ == pts_views(points@)[i as int]);
            assert(q@ == pts_views(points@)[i as int + 1]);
        }
        if p.x().le(x) && x.le(&q.x()) {
            proof {
                assert(in_segment(pts_views(points@), i as int, x@));
            }
            let v = match qeval_exec(coefficients, i, x) {
                Ok(w) => w,
                Err(e) => {
                    return Err(e);
                },
            };
            proof {
                assert(in_segment(pts_views(points@), i as int, x@));
            }
            return Ok(v);
        }
        i += 1;
    }
    Err(NumError::DomainError)
}

/// Evaluates the cubic spline at `x`: the first segment whose range
/// contains `x` is used. A query outside every segment is a
/// [`NumError::DomainError`].
pub fn cubic_spline(points: &Vec<Point>, coefficients: &Vec<Ratio>, x: &Ratio) -> (r: Result<
    Ratio,
    NumError,
>)
    requires
        ents_inv(coefficients@),
    ensures
        ({
            let pv = pts_views(points@);
            let sc = ents_rats(coefficients@);
            let m = points@.len() - 1;
            match r {
                Ok(v) => exists|i: int|
                    0 <= i < m && #[trigger] in_segment(pv, i, x@) && (forall|j: int|
                        0 <= j < i ==> !in_segment(pv, j, x@)) && rat_eqv(v@, ceval(sc, i, x@)),
                Err(e) => {
                    &&& (e == NumError::DomainError || e == NumError::Overflow)
                    &&& (e == NumError::DomainError <==> (coefficients@.len() != 4 * m || forall|
                        i: int,
                    |
                        0 <= i < m ==> !in_segment(pv, i, x@)))
                },
            }
        }),
{
    let np = points.len();
    if np < 1 {
        return Err(NumError::DomainError);
    }
    let m = np - 1;
    let clen = coefficients.len();
    let n4 = match m.checked_mul(4) {
        Some(v) => v,
        None => {
            proof {
                assert(clen as int != 4 * (points@.len() - 1));
            }
            return Err(NumError::DomainError);
        },
    };
    if clen != n4 {
        return Err(NumError::DomainError);
    }
    let mut i: usize = 0;
    while i < m
        invariant
            np as int == points@.len(),
            np >= 1,
            m == np - 1,
            coefficients@.len() == 4 * m,
            ents_inv(coefficients@),
            i <= m,
            forall|j: int| 0 <= j < i as int ==> !in_segment(pts_views(points@), j, x@),
        decreases m - i,
    {
        let p = points[i];
        let q = points[i + 1];
        proof {
            use_type_invariant(&p);
            use_type_invariant(&q);
            assert(p@ == pts_views(points@)[i as int]);
            assert(q@ == pts_views(points@)[i as int + 1]);
        }
        if p.x().le(x) && x.le(&q.x()) {
            proof {
                assert(in_segment(pts_views(points@), i as int, x@));
            }
            let v = match ceval_exec(coefficients, i, x) {
                Ok(w) => w,
                Err(e) => {
                    return Err(e);
                },
            };
            proof {
                assert(in_segment(pts_views(points@), i as int, x@));
            }
            return Ok(v);
        }
        i += 1;
    }
    Err(NumError::DomainError)
}

} // verus!
