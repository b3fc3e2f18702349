//! Iterative linear-system solving.
//!
//! Solves `A x = b` for a dense matrix `A` by two fixed-point schemes
//! sharing one splitting: the iteration matrix `G` with `G[i][i] = 0`
//! and `G[i][j] = -A[i][j] / A[i][i]`, and the free vector
//! `f[i] = b[i] / A[i][i]`. Jacobi (simple iteration) updates every
//! entry from the previous iterate; Gauss–Seidel uses the entries
//! already updated in the same sweep. Norms are the maximum norms
//! (largest entry magnitude for a vector, largest absolute row sum
//! for a matrix), which exact rational arithmetic can compute.

use vstd::prelude::*;

use crate::error::NumError;
use crate::rat::{
    lemma_abs_congr, lemma_add_congr, lemma_cmp_congr, lemma_div_congr, lemma_eqv_trans,
    lemma_mul_congr, lemma_neg_congr, lemma_ops_wf, lemma_sub_congr, rat_abs, rat_add, rat_div,
    rat_eqv, rat_is_zero, rat_le, rat_lt, rat_mul, rat_neg, rat_of_int, rat_sub, rat_wf, rat_zero,
    rats_wf, Rat, Ratio,
};

verus! {

// ---------------------------------------------------------------
// Vectors and matrices of exact rationals
// ---------------------------------------------------------------
/// A dense vector of exact rationals.
#[derive(Debug)]
pub struct Vector {
    data: Vec<Ratio>,
}

impl View for Vector {
    type V = Seq<Rat>;

    closed spec fn view(&self) -> Seq<Rat> {
        self.data@.map_values(|c: Ratio| c@)
    }
}

impl Vector {
    /// All entries satisfy the rational invariant.
    #[verifier::type_invariant]
    pub closed spec fn inv(self) -> bool {
        forall|i: int| 0 <= i < self.data@.len() ==> (#[trigger] self.data@[i]).inv()
    }

    /// The entries of a vector are well-formed.
    pub proof fn lemma_wf(v: Vector)
        requires
            v.inv(),
        ensures
            rats_wf(v@),
    {
        assert forall|i: int| 0 <= i < v@.len() implies rat_wf(#[trigger] v@[i]) by {
            Ratio::lemma_inv_wf(v.data@[i]);
        }
    }

    /// Builds a vector from its entries.
    pub fn from_ratios(cs: Vec<Ratio>) -> (v: Vector)
        ensures
            v@ == cs@.map_values(|c: Ratio| c@),
    {
        let ghost orig = cs@;
        let mut rest = cs;
        let mut out: Vec<Ratio> = Vec::new();
        while rest.len() > 0
            invariant
                out@.len() + rest@.len() == orig.len(),
                forall|j: int| 0 <= j < out@.len() ==> out@[j] == orig[j],
                forall|j: int| 0 <= j < out@.len() ==> (#[trigger] out@[j]).inv(),
                rest@ =~= orig.subrange(out@.len() as int, orig.len() as int),
            decreases rest@.len(),
        {
            let c = rest.remove(0);
            proof {
                use_type_invariant(&c);
                assert(c == orig[out@.len() as int]);
            }
            out.push(c);
        }
        let v = Vector { data: out };
        proof {
            assert(v@ =~= orig.map_values(|c: Ratio| c@));
        }
        v
    }

    /// Builds a vector with integer entries.
    pub fn from_ints(cs: Vec<i64>) -> (v: Vector)
        ensures
            v@.len() == cs@.len(),
            forall|i: int| 0 <= i < cs@.len() ==> v@[i] == rat_of_int(cs@[i] as int),
    {
        let mut out: Vec<Ratio> = Vec::new();
        let mut i: usize = 0;
        while i < cs.len()
            invariant
                i <= cs@.len(),
                out@.len() == i as int,
                forall|j: int|
                    0 <= j < i as int ==> (#[trigger] out@[j])@ == rat_of_int(cs@[j] as int),
                forall|j: int| 0 <= j < i as int ==> (#[trigger] out@[j]).inv(),
            decreases cs@.len() - i as int,
        {
            let c = Ratio::from_int(cs[i]);
            proof {
                use_type_invariant(&c);
            }
            out.push(c);
            i += 1;
        }
        Vector { data: out }
    }

    /// The number of entries.
    pub fn len(&self) -> (n: usize)
        ensures
            n as int == self@.len(),
    {
        self.data.len()
    }

    /// The entry at `i`.
    pub fn get(&self, i: usize) -> (r: Ratio)
        requires
            i < self@.len(),
        ensures
            r@ == self@[i as int],
    {
        proof {
            use_type_invariant(self);
        }
        self.data[i]
    }
}

/// A dense matrix of exact rationals, stored by rows.
#[derive(Debug)]
pub struct Matrix {
    rows: Vec<Vector>,
}

impl View for Matrix {
    type V = Seq<Seq<Rat>>;

    closed spec fn view(&self) -> Seq<Seq<Rat>> {
        self.rows@.map_values(|r: Vector| r@)
    }
}

/// Every row of the matrix model is well-formed.
pub open spec fn mat_wf(m: Seq<Seq<Rat>>) -> bool {
    forall|i: int| 0 <= i < m.len() ==> rats_wf(#[trigger] m[i])
}

/// The matrix model is square with side `n`.
pub open spec fn mat_square(m: Seq<Seq<Rat>>, n: int) -> bool {
    m.len() == n && forall|i: int| 0 <= i < m.len() ==> (#[trigger] m[i]).len() == n
}

impl Matrix {
    /// All rows satisfy the vector invariant.
    #[verifier::type_invariant]
    pub closed spec fn inv(self) -> bool {
        forall|i: int| 0 <= i < self.rows@.len() ==> (#[trigger] self.rows@[i]).inv()
    }

    /// The rows of a matrix are well-formed.
    pub proof fn lemma_wf(m: Matrix)
        requires
            m.inv(),
        ensures
            mat_wf(m@),
    {
        assert forall|i: int| 0 <= i < m@.len() implies rats_wf(#[trigger] m@[i]) by {
            Vector::lemma_wf(m.rows@[i]);
        }
    }

    /// Builds a matrix from its rows.
    pub fn from_rows(rows: Vec<Vector>) -> (m: Matrix)
        ensures
            m@ == rows@.map_values(|r: Vector| r@),
    {
        let ghost orig = rows@;
        let mut rest = rows;
        let mut out: Vec<Vector> = Vec::new();
        while rest.len() > 0
            invariant
                out@.len() + rest@.len() == orig.len(),
                forall|j: int| 0 <= j < out@.len() ==> out@[j] == orig[j],
                forall|j: int| 0 <= j < out@.len() ==> (#[trigger] out@[j]).inv(),
                rest@ =~= orig.subrange(out@.len() as int, orig.len() as int),
            decreases rest@.len(),
        {
            let r = rest.remove(0);
            proof {
                use_type_invariant(&r);
                assert(r == orig[out@.len() as int]);
            }
            out.push(r);
        }
        let m = Matrix { rows: out };
        proof {
            assert(m@ =~= orig.map_values(|r: Vector| r@));
        }
        m
    }

    /// The number of rows.
    pub fn nrows(&self) -> (n: usize)
        ensures
            n as int == self@.len(),
    {
        self.rows.len()
    }

    /// The row at `i`.
    pub fn row(&self, i: usize) -> (r: &Vector)
        requires
            i < self@.len(),
        ensures
            r@ == self@[i as int],
            r.inv(),
    {
        proof {
            use_type_invariant(self);
        }
        &self.rows[i]
    }

    /// The entry at `(i, j)`.
    pub fn get(&self, i: usize, j: usize) -> (r: Ratio)
        requires
            i < self@.len(),
            j < self@[i as int].len(),
        ensures
            r@ == self@[i as int][j as int],
    {
        proof {
            use_type_invariant(self);
        }
        self.rows[i].get(j)
    }
}

// ---------------------------------------------------------------
// Spec-level vector algebra
// ---------------------------------------------------------------
/// Two vector models denote the same values entrywise.
pub open spec fn vec_eqv(u: Seq<Rat>, v: Seq<Rat>) -> bool {
    u.len() == v.len() && forall|i: int| 0 <= i < u.len() ==> rat_eqv(#[trigger] u[i], v[i])
}

/// The dot product of two equally long vectors.
pub open spec fn dot(u: Seq<Rat>, v: Seq<Rat>) -> Rat
    decreases u.len(),
{
    if u.len() == 0 || v.len() == 0 {
        rat_zero()
    } else {
        rat_add(
            rat_mul(u[0], v[0]),
            dot(u.subrange(1, u.len() as int), v.subrange(1, v.len() as int)),
        )
    }
}

/// The largest entry magnitude of a vector (its maximum norm).
pub open spec fn vnorm(u: Seq<Rat>) -> Rat
    decreases u.len(),
{
    if u.len() == 0 {
        rat_zero()
    } else {
        let rest = vnorm(u.subrange(1, u.len() as int));
        if rat_le(rat_abs(u[0]), rest) {
            rest
        } else {
            rat_abs(u[0])
        }
    }
}

/// The absolute sum of a row.
pub open spec fn row_abs_sum(u: Seq<Rat>) -> Rat
    decreases u.len(),
{
    if u.len() == 0 {
        rat_zero()
    } else {
        rat_add(rat_abs(u[0]), row_abs_sum(u.subrange(1, u.len() as int)))
    }
}

/// The largest absolute row sum of a matrix (its maximum norm).
pub open spec fn mnorm(m: Seq<Seq<Rat>>) -> Rat
    decreases m.len(),
{
    if m.len() == 0 {
        rat_zero()
    } else {
        let rest = mnorm(m.subrange(1, m.len() as int));
        if rat_le(row_abs_sum(m[0]), rest) {
            rest
        } else {
            row_abs_sum(m[0])
        }
    }
}

/// The entrywise difference of two vectors.
pub open spec fn vsub(u: Seq<Rat>, v: Seq<Rat>) -> Seq<Rat> {
    Seq::new(u.len(), |i: int| rat_sub(u[i], v[i]))
}

/// The matrix-vector product, one dot product per row.
pub open spec fn mat_vec(m: Seq<Seq<Rat>>, x: Seq<Rat>) -> Seq<Rat> {
    Seq::new(m.len(), |i: int| dot(m[i], x))
}

/// The iteration matrix of the splitting: zero on the diagonal and
/// `-A[i][j] / A[i][i]` elsewhere.
pub open spec fn split_g(a: Seq<Seq<Rat>>) -> Seq<Seq<Rat>> {
    Seq::new(
        a.len(),
        |i: int|
            Seq::new(
                a[i].len(),
                |j: int|
                    if i == j {
                        rat_zero()
                    } else {
                        rat_neg(rat_div(a[i][j], a[i][i]))
                    },
            ),
    )
}

/// The free vector of the splitting: `b[i] / A[i][i]`.
pub open spec fn split_f(a: Seq<Seq<Rat>>, b: Seq<Rat>) -> Seq<Rat> {
    Seq::new(b.len(), |i: int| rat_div(b[i], a[i][i]))
}

/// The well-formedness of the spec vectors produced by the
/// operations above.
pub proof fn lemma_dot_wf(u: Seq<Rat>, v: Seq<Rat>)
    requires
        rats_wf(u),
        rats_wf(v),
    ensures
        rat_wf(dot(u, v)),
    decreases u.len(),
{
    if u.len() == 0 || v.len() == 0 {
    } else {
        let ur = u.subrange(1, u.len() as int);
        let vr = v.subrange(1, v.len() as int);
        assert(rats_wf(ur));
        assert(rats_wf(vr));
        lemma_dot_wf(ur, vr);
        lemma_ops_wf(u[0], v[0]);
        lemma_ops_wf(rat_mul(u[0], v[0]), dot(ur, vr));
    }
}

/// Dot products of entrywise-equivalent vectors are equivalent.
pub proof fn lemma_dot_congr(u: Seq<Rat>, u2: Seq<Rat>, v: Seq<Rat>, v2: Seq<Rat>)
    requires
        rats_wf(u),
        rats_wf(u2),
        rats_wf(v),
        rats_wf(v2),
        vec_eqv(u, u2),
        vec_eqv(v, v2),
    ensures
        rat_eqv(dot(u, v), dot(u2, v2)),
    decreases u.len(),
{
    if u.len() == 0 || v.len() == 0 {
    } else {
        let ur = u.subrange(1, u.len() as int);
        let vr = v.subrange(1, v.len() as int);
        let ur2 = u2.subrange(1, u2.len() as int);
        let vr2 = v2.subrange(1, v2.len() as int);
        assert(rats_wf(ur));
        assert(rats_wf(vr));
        assert(rats_wf(ur2));
        assert(rats_wf(vr2));
        assert(vec_eqv(ur, ur2));
        assert(vec_eqv(vr, vr2));
        lemma_dot_congr(ur, ur2, vr, vr2);
        lemma_dot_wf(ur, vr);
        lemma_dot_wf(ur2, vr2);
        lemma_mul_congr(u[0], u2[0], v[0], v2[0]);
        lemma_ops_wf(u[0], v[0]);
        lemma_ops_wf(u2[0], v2[0]);
        lemma_add_congr(rat_mul(u[0], v[0]), rat_mul(u2[0], v2[0]), dot(ur, vr), dot(ur2, vr2));
    }
}

/// The maximum norm of a vector is well-formed.
pub proof fn lemma_vnorm_wf(u: Seq<Rat>)
    requires
        rats_wf(u),
    ensures
        rat_wf(vnorm(u)),
    decreases u.len(),
{
    if u.len() == 0 {
    } else {
        let rest = u.subrange(1, u.len() as int);
        assert(rats_wf(rest));
        lemma_vnorm_wf(rest);
        lemma_ops_wf(u[0], u[0]);
    }
}

/// Maximum norms of entrywise-equivalent vectors are equivalent.
pub proof fn lemma_vnorm_congr(u: Seq<Rat>, u2: Seq<Rat>)
    requires
        rats_wf(u),
        rats_wf(u2),
        vec_eqv(u, u2),
    ensures
        rat_eqv(vnorm(u), vnorm(u2)),
    decreases u.len(),
{
    if u.len() == 0 {
    } else {
        let rest = u.subrange(1, u.len() as int);
        let rest2 = u2.subrange(1, u2.len() as int);
        assert(rats_wf(rest));
        assert(rats_wf(rest2));
        assert(vec_eqv(rest, rest2));
        lemma_vnorm_congr(rest, rest2);
        lemma_vnorm_wf(rest);
        lemma_vnorm_wf(rest2);
        lemma_abs_congr(u[0], u2[0]);
        lemma_ops_wf(u[0], u[0]);
        lemma_ops_wf(u2[0], u2[0]);
        lemma_cmp_congr(rat_abs(u[0]), rat_abs(u2[0]), vnorm(rest), vnorm(rest2));
    }
}

/// The absolute row sum is well-formed.
pub proof fn lemma_row_abs_sum_wf(u: Seq<Rat>)
    requires
        rats_wf(u),
    ensures
        rat_wf(row_abs_sum(u)),
    decreases u.len(),
{
    if u.len() == 0 {
    } else {
        let rest = u.subrange(1, u.len() as int);
        assert(rats_wf(rest));
        lemma_row_abs_sum_wf(rest);
        lemma_ops_wf(u[0], u[0]);
        lemma_ops_wf(rat_abs(u[0]), row_abs_sum(rest));
    }
}

/// Absolute row sums of entrywise-equivalent rows are equivalent.
pub proof fn lemma_row_abs_sum_congr(u: Seq<Rat>, u2: Seq<Rat>)
    requires
        rats_wf(u),
        rats_wf(u2),
        vec_eqv(u, u2),
    ensures
        rat_eqv(row_abs_sum(u), row_abs_sum(u2)),
    decreases u.len(),
{
    if u.len() == 0 {
    } else {
        let rest = u.subrange(1, u.len() as int);
        let rest2 = u2.subrange(1, u2.len() as int);
        assert(rats_wf(rest));
        assert(rats_wf(rest2));
        assert(vec_eqv(rest, rest2));
        lemma_row_abs_sum_congr(rest, rest2);
        lemma_row_abs_sum_wf(rest);
        lemma_row_abs_sum_wf(rest2);
        lemma_abs_congr(u[0], u2[0]);
        lemma_ops_wf(u[0], u[0]);
        lemma_ops_wf(u2[0], u2[0]);
        lemma_add_congr(rat_abs(u[0]), rat_abs(u2[0]), row_abs_sum(rest), row_abs_sum(rest2));
    }
}

/// The maximum norm of a matrix is well-formed.
pub proof fn lemma_mnorm_wf(m: Seq<Seq<Rat>>)
    requires
        mat_wf(m),
    ensures
        rat_wf(mnorm(m)),
    decreases m.len(),
{
    if m.len() == 0 {
    } else {
        let rest = m.subrange(1, m.len() as int);
        assert(mat_wf(rest));
        lemma_mnorm_wf(rest);
        lemma_row_abs_sum_wf(m[0]);
    }
}

/// Two matrix models denote the same values entrywise.
pub open spec fn mat_eqv(m: Seq<Seq<Rat>>, m2: Seq<Seq<Rat>>) -> bool {
    m.len() == m2.len() && forall|i: int| 0 <= i < m.len() ==> vec_eqv(#[trigger] m[i], m2[i])
}

/// Maximum norms of entrywise-equivalent matrices are equivalent.
pub proof fn lemma_mnorm_congr(m: Seq<Seq<Rat>>, m2: Seq<Seq<Rat>>)
    requires
        mat_wf(m),
        mat_wf(m2),
        mat_eqv(m, m2),
    ensures
        rat_eqv(mnorm(m), mnorm(m2)),
    decreases m.len(),
{
    if m.len() == 0 {
    } else {
        let rest = m.subrange(1, m.len() as int);
        let rest2 = m2.subrange(1, m2.len() as int);
        assert(mat_wf(rest));
        assert(mat_wf(rest2));
        assert(mat_eqv(rest, rest2));
        lemma_mnorm_congr(rest, rest2);
        lemma_mnorm_wf(rest);
        lemma_mnorm_wf(rest2);
        lemma_row_abs_sum_congr(m[0], m2[0]);
        lemma_row_abs_sum_wf(m[0]);
        lemma_row_abs_sum_wf(m2[0]);
        lemma_cmp_congr(row_abs_sum(m[0]), row_abs_sum(m2[0]), mnorm(rest), mnorm(rest2));
    }
}

/// The entrywise sum of two vectors.
pub open spec fn vadd(u: Seq<Rat>, v: Seq<Rat>) -> Seq<Rat> {
    Seq::new(u.len(), |i: int| rat_add(u[i], v[i]))
}

/// The starting iterate both schemes use: `G * f + f`.
pub open spec fn iter_start(g: Seq<Seq<Rat>>, fv: Seq<Rat>) -> Seq<Rat> {
    vadd(mat_vec(g, fv), fv)
}

/// The Jacobi iterate after `k` steps: every entry is updated from
/// the previous iterate, `x_{k+1} = G x_k + f`.
pub open spec fn jac_iter(g: Seq<Seq<Rat>>, fv: Seq<Rat>, k: nat) -> Seq<Rat>
    decreases k,
{
    if k == 0 {
        iter_start(g, fv)
    } else {
        vadd(mat_vec(g, jac_iter(g, fv, (k - 1) as nat)), fv)
    }
}

/// The first `i` entries of a Gauss–Seidel sweep over the old
/// iterate `xold`: entry `i` combines the entries already updated in
/// this sweep (`j < i`) with the old entries (`j >= i`).
pub open spec fn gs_prefix(g: Seq<Seq<Rat>>, fv: Seq<Rat>, xold: Seq<Rat>, i: nat) -> Seq<Rat>
    decreases i,
{
    if i == 0 {
        Seq::empty()
    } else {
        let pre = gs_prefix(g, fv, xold, (i - 1) as nat);
        let row = g[i - 1];
        pre.push(
            rat_add(
                rat_add(
                    dot(row.subrange(0, i - 1), pre),
                    dot(
                        row.subrange(i - 1, row.len() as int),
                        xold.subrange(i - 1, xold.len() as int),
                    ),
                ),
                fv[i - 1],
            ),
        )
    }
}

/// One full Gauss–Seidel sweep.
pub open spec fn gs_step(g: Seq<Seq<Rat>>, fv: Seq<Rat>, xold: Seq<Rat>) -> Seq<Rat> {
    gs_prefix(g, fv, xold, g.len() as nat)
}

/// The Gauss–Seidel iterate after `k` steps, from the shared
/// starting iterate.
pub open spec fn sei_iter(g: Seq<Seq<Rat>>, fv: Seq<Rat>, k: nat) -> Seq<Rat>
    decreases k,
{
    if k == 0 {
        iter_start(g, fv)
    } else {
        gs_step(g, fv, sei_iter(g, fv, (k - 1) as nat))
    }
}

/// The scaled tolerance both schemes stop against:
/// `((1 - ||G||) / ||G||) * epsilon`.
pub open spec fn scaled_eps(g: Seq<Seq<Rat>>, eps: Rat) -> Rat {
    rat_mul(rat_div(rat_sub(rat_of_int(1), mnorm(g)), mnorm(g)), eps)
}

/// The iterate of the scheme selected by `seidel` after `k` steps.
pub open spec fn lin_iter(g: Seq<Seq<Rat>>, fv: Seq<Rat>, seidel: bool, k: nat) -> Seq<Rat> {
    if seidel {
        sei_iter(g, fv, k)
    } else {
        jac_iter(g, fv, k)
    }
}

/// The stopping rule holds after step `k >= 1`: the last movement is
/// at most the scaled tolerance. The iterate sequence is chosen by
/// `seidel`.
pub open spec fn lin_small_step(
    g: Seq<Seq<Rat>>,
    fv: Seq<Rat>,
    eps: Rat,
    seidel: bool,
    k: nat,
) -> bool {
    rat_le(
        vnorm(vsub(lin_iter(g, fv, seidel, k), lin_iter(g, fv, seidel, (k - 1) as nat))),
        scaled_eps(g, eps),
    )
}

/// The system has a positive size, a square matrix, and a matching
/// right-hand side.
pub open spec fn lin_shape_ok(am: Seq<Seq<Rat>>, bm: Seq<Rat>) -> bool {
    am.len() > 0 && mat_square(am, am.len() as int) && bm.len() == am.len()
}

/// All entries of a `Ratio` vector satisfy the rational invariant.
pub open spec fn ratios_inv(s: Seq<Ratio>) -> bool {
    forall|i: int| 0 <= i < s.len() ==> (#[trigger] s[i]).inv()
}

/// The models of a `Ratio` vector's entries.
pub open spec fn vec_rats(s: Seq<Ratio>) -> Seq<Rat> {
    s.map_values(|c: Ratio| c@)
}

/// A `Ratio` vector whose entries satisfy the invariant has a
/// well-formed model.
pub proof fn lemma_ratios_inv_wf(s: Seq<Ratio>)
    requires
        ratios_inv(s),
    ensures
        rats_wf(vec_rats(s)),
{
    assert forall|i: int| 0 <= i < vec_rats(s).len() implies rat_wf(#[trigger] vec_rats(s)[i]) by {
        Ratio::lemma_inv_wf(s[i]);
    }
}

/// `sum_{k} u[ufrom + k] * v[vfrom + k]` over `uto - ufrom` terms,
/// pinned to [`dot`] on the corresponding subranges.
fn dot_range(
    u: &Vector,
    v: &Vec<Ratio>,
    ufrom: usize,
    uto: usize,
    vfrom: usize,
) -> (r: Result<Ratio, NumError>)
    requires
        ufrom <= uto <= u@.len(),
        vfrom + (uto - ufrom) <= v@.len(),
        ratios_inv(v@),
    ensures
        match r {
            Ok(res) => rat_eqv(
                res@,
                dot(
                    u@.subrange(ufrom as int, uto as int),
                    vec_rats(v@).subrange(vfrom as int, vfrom + (uto - ufrom)),
                ),
            ),
            Err(e) => e == NumError::Overflow,
        },
{
    proof {
        use_type_invariant(u);
        Vector::lemma_wf(*u);
        lemma_ratios_inv_wf(v@);
    }
    let vlen = v.len();
    let mut acc = Ratio::from_int(0);
    let mut i: usize = uto;
    proof {
        assert(u@.subrange(uto as int, uto as int) =~= Seq::<Rat>::empty());
        assert(vec_rats(v@).subrange(
            (vfrom + (uto - ufrom)) as int,
            (vfrom + (uto - ufrom)) as int,
        ) =~= Seq::<Rat>::empty());
    }
    while i > ufrom
        invariant
            ufrom <= i <= uto <= u@.len(),
            vfrom + (uto - ufrom) <= v@.len(),
            ratios_inv(v@),
            rats_wf(u@),
            rats_wf(vec_rats(v@)),
            vlen == v@.len(),
            rat_eqv(
                acc@,
                dot(
                    u@.subrange(i as int, uto as int),
                    vec_rats(v@).subrange(
                        vfrom + (i - ufrom),
                        vfrom + (uto - ufrom),
                    ),
                ),
            ),
        decreases i,
    {
        i = i - 1;
        let ghost acc_old = acc@;
        let ghost utail = u@.subrange(i as int + 1, uto as int);
        let ghost vtail = vec_rats(v@).subrange(vfrom + (i + 1 - ufrom), vfrom + (uto - ufrom));
        let ghost uhere = u@.subrange(i as int, uto as int);
        let ghost vhere = vec_rats(v@).subrange(vfrom + (i - ufrom), vfrom + (uto - ufrom));
        proof {
            assert(vfrom + (i - ufrom) < vlen);
        }
        let uv = u.get(i);
        let vv = v[vfrom + (i - ufrom)];
        proof {
            use_type_invariant(&uv);
            Ratio::lemma_inv_wf(uv);
            use_type_invariant(&vv);
            Ratio::lemma_inv_wf(vv);
        }
        let t = match uv.mul(&vv) {
            Ok(w) => w,
            Err(e) => {
                return Err(e);
            },
        };
        let next = match t.add(&acc) {
            Ok(w) => w,
            Err(e) => {
                return Err(e);
            },
        };
        proof {
            use_type_invariant(&t);
            Ratio::lemma_inv_wf(t);
            use_type_invariant(&acc);
            Ratio::lemma_inv_wf(acc);
            use_type_invariant(&next);
            Ratio::lemma_inv_wf(next);
            assert(uhere[0] == u@[i as int]);
            assert(vhere[0] == vec_rats(v@)[vfrom + (i - ufrom)]);
            assert(uhere.subrange(1, uhere.len() as int) =~= utail);
            assert(vhere.subrange(1, vhere.len() as int) =~= vtail);
            assert(rats_wf(utail));
            assert(rats_wf(vtail));
            lemma_dot_wf(utail, vtail);
            lemma_ops_wf(uv@, vv@);
            lemma_add_congr(t@, rat_mul(uhere[0], vhere[0]), acc_old, dot(utail, vtail));
            lemma_ops_wf(t@, acc_old);
            lemma_ops_wf(rat_mul(uhere[0], vhere[0]), dot(utail, vtail));
            lemma_eqv_trans(
                next@,
                rat_add(t@, acc_old),
                rat_add(rat_mul(uhere[0], vhere[0]), dot(utail, vtail)),
            );
            assert(dot(uhere, vhere) == rat_add(
                rat_mul(uhere[0], vhere[0]),
                dot(utail, vtail),
            ));
        }
        acc = next;
    }
    Ok(acc)
}

/// The maximum norm of a `Ratio` vector, pinned to [`vnorm`].
fn vnorm_exec(v: &Vec<Ratio>) -> (r: Result<Ratio, NumError>)
    requires
        ratios_inv(v@),
    ensures
        match r {
            Ok(res) => rat_eqv(res@, vnorm(vec_rats(v@))) && rat_wf(vnorm(vec_rats(v@))),
            Err(e) => e == NumError::Overflow,
        },
{
    proof {
        lemma_ratios_inv_wf(v@);
    }
    let mut acc = Ratio::from_int(0);
    let mut i: usize = v.len();
    proof {
        assert(vec_rats(v@).subrange(i as int, i as int) =~= Seq::<Rat>::empty());
    }
    while i > 0
        invariant
            i <= v@.len(),
            ratios_inv(v@),
            rats_wf(vec_rats(v@)),
            rat_eqv(acc@, vnorm(vec_rats(v@).subrange(i as int, v@.len() as int))),
            rat_wf(vnorm(vec_rats(v@).subrange(i as int, v@.len() as int))),
        decreases i,
    {
        i = i - 1;
        let ghost acc_old = acc@;
        let ghost tail = vec_rats(v@).subrange(i as int + 1, v@.len() as int);
        let ghost here = vec_rats(v@).subrange(i as int, v@.len() as int);
        let vv = v[i];
        proof {
            use_type_invariant(&vv);
            Ratio::lemma_inv_wf(vv);
        }
        let av = match vv.abs() {
            Ok(w) => w,
            Err(e) => {
                return Err(e);
            },
        };
        proof {
            use_type_invariant(&av);
            Ratio::lemma_inv_wf(av);
            use_type_invariant(&acc);
            Ratio::lemma_inv_wf(acc);
            assert(here[0] == vec_rats(v@)[i as int]);
            assert(here.subrange(1, here.len() as int) =~= tail);
            assert(rats_wf(tail));
            lemma_vnorm_wf(tail);
            lemma_ops_wf(here[0], here[0]);
            lemma_cmp_congr(av@, rat_abs(here[0]), acc_old, vnorm(tail));
            assert(vnorm(here) == (if rat_le(rat_abs(here[0]), vnorm(tail)) {
                vnorm(tail)
            } else {
                rat_abs(here[0])
            }));
        }
        if av.le(&acc) {
            // keep acc
        } else {
            acc = av;
        }
    }
    proof {
        assert(vec_rats(v@).subrange(0, v@.len() as int) =~= vec_rats(v@));
    }
    Ok(acc)
}

/// The splitting of a well-formed matrix with nonzero diagonal is
/// well-formed.
pub proof fn lemma_split_wf(a: Seq<Seq<Rat>>, b: Seq<Rat>)
    requires
        mat_wf(a),
        rats_wf(b),
        mat_square(a, a.len() as int),
        b.len() == a.len(),
        forall|i: int| 0 <= i < a.len() ==> !rat_is_zero(#[trigger] a[i][i]),
    ensures
        mat_wf(split_g(a)),
        rats_wf(split_f(a, b)),
        split_g(a).len() == a.len(),
        forall|i: int| 0 <= i < a.len() ==> (#[trigger] split_g(a)[i]).len() == a.len(),
        split_f(a, b).len() == a.len(),
{
    assert forall|i: int| 0 <= i < split_g(a).len() implies rats_wf(#[trigger] split_g(a)[i]) by {
        assert forall|j: int| 0 <= j < split_g(a)[i].len() implies rat_wf(
            #[trigger] split_g(a)[i][j],
        ) by {
            if i != j {
                lemma_ops_wf(a[i][j], a[i][i]);
                lemma_ops_wf(rat_div(a[i][j], a[i][i]), rat_div(a[i][j], a[i][i]));
            }
        }
    }
    assert forall|i: int| 0 <= i < split_f(a, b).len() implies rat_wf(
        #[trigger] split_f(a, b)[i],
    ) by {
        lemma_ops_wf(b[i], a[i][i]);
    }
}

/// A matrix-vector product of well-formed operands is well-formed.
pub proof fn lemma_matvec_wf(m: Seq<Seq<Rat>>, x: Seq<Rat>)
    requires
        mat_wf(m),
        rats_wf(x),
    ensures
        rats_wf(mat_vec(m, x)),
        mat_vec(m, x).len() == m.len(),
{
    assert forall|i: int| 0 <= i < mat_vec(m, x).len() implies rat_wf(
        #[trigger] mat_vec(m, x)[i],
    ) by {
        lemma_dot_wf(m[i], x);
    }
}

/// Entrywise sums and differences of well-formed vectors are
/// well-formed.
pub proof fn lemma_vops_wf(u: Seq<Rat>, v: Seq<Rat>)
    requires
        rats_wf(u),
        rats_wf(v),
        u.len() == v.len(),
    ensures
        rats_wf(vadd(u, v)),
        rats_wf(vsub(u, v)),
        vadd(u, v).len() == u.len(),
        vsub(u, v).len() == u.len(),
{
    assert forall|i: int| 0 <= i < vadd(u, v).len() implies rat_wf(#[trigger] vadd(u, v)[i]) by {
        lemma_ops_wf(u[i], v[i]);
    }
    assert forall|i: int| 0 <= i < vsub(u, v).len() implies rat_wf(#[trigger] vsub(u, v)[i]) by {
        lemma_ops_wf(u[i], v[i]);
    }
}

/// The Jacobi iterates are well-formed vectors of the system's size.
pub proof fn lemma_jac_iter_wf(g: Seq<Seq<Rat>>, fv: Seq<Rat>, k: nat)
    requires
        mat_wf(g),
        rats_wf(fv),
        g.len() == fv.len(),
    ensures
        rats_wf(jac_iter(g, fv, k)),
        jac_iter(g, fv, k).len() == g.len(),
    decreases k,
{
    if k == 0 {
        lemma_matvec_wf(g, fv);
        lemma_vops_wf(mat_vec(g, fv), fv);
    } else {
        lemma_jac_iter_wf(g, fv, (k - 1) as nat);
        lemma_matvec_wf(g, jac_iter(g, fv, (k - 1) as nat));
        lemma_vops_wf(mat_vec(g, jac_iter(g, fv, (k - 1) as nat)), fv);
    }
}

/// The partial Gauss–Seidel sweep has the expected length and is
/// well-formed.
pub proof fn lemma_gs_prefix_wf(g: Seq<Seq<Rat>>, fv: Seq<Rat>, xold: Seq<Rat>, i: nat)
    requires
        mat_wf(g),
        rats_wf(fv),
        rats_wf(xold),
        mat_square(g, g.len() as int),
        fv.len() == g.len(),
        xold.len() == g.len(),
        i <= g.len(),
    ensures
        gs_prefix(g, fv, xold, i).len() == i,
        rats_wf(gs_prefix(g, fv, xold, i)),
    decreases i,
{
    if i > 0 {
        lemma_gs_prefix_wf(g, fv, xold, (i - 1) as nat);
        let pre = gs_prefix(g, fv, xold, (i - 1) as nat);
        let row = g[i - 1];
        assert(rats_wf(row.subrange(0, i - 1)));
        assert(rats_wf(row.subrange(i - 1, row.len() as int)));
        assert(rats_wf(xold.subrange(i - 1, xold.len() as int)));
        lemma_dot_wf(row.subrange(0, i - 1), pre);
        lemma_dot_wf(row.subrange(i - 1, row.len() as int), xold.subrange(i - 1, xold.len() as int));
        lemma_ops_wf(
            dot(row.subrange(0, i - 1), pre),
            dot(row.subrange(i - 1, row.len() as int), xold.subrange(i - 1, xold.len() as int)),
        );
        lemma_ops_wf(
            rat_add(
                dot(row.subrange(0, i - 1), pre),
                dot(
                    row.subrange(i - 1, row.len() as int),
                    xold.subrange(i - 1, xold.len() as int),
                ),
            ),
            fv[i - 1],
        );
    }
}

/// The Gauss–Seidel iterates are well-formed vectors of the system's
/// size.
pub proof fn lemma_sei_iter_wf(g: Seq<Seq<Rat>>, fv: Seq<Rat>, k: nat)
    requires
        mat_wf(g),
        rats_wf(fv),
        mat_square(g, g.len() as int),
        g.len() == fv.len(),
    ensures
        rats_wf(sei_iter(g, fv, k)),
        sei_iter(g, fv, k).len() == g.len(),
    decreases k,
{
    if k == 0 {
        lemma_matvec_wf(g, fv);
        lemma_vops_wf(mat_vec(g, fv), fv);
    } else {
        lemma_sei_iter_wf(g, fv, (k - 1) as nat);
        lemma_gs_prefix_wf(g, fv, sei_iter(g, fv, (k - 1) as nat), g.len() as nat);
    }
}

/// Builds the splitting `G` and `f` of the system, each entry pinned
/// to [`split_g`] and [`split_f`].
fn build_split(a: &Matrix, b: &Vector) -> (r: Result<(Matrix, Vector), NumError>)
    requires
        mat_square(a@, a@.len() as int),
        b@.len() == a@.len(),
        forall|i: int| 0 <= i < a@.len() ==> !rat_is_zero(#[trigger] a@[i][i]),
    ensures
        match r {
            Ok(p) => {
                &&& p.0@.len() == a@.len()
                &&& mat_square(p.0@, a@.len() as int)
                &&& p.1@.len() == a@.len()
                &&& mat_eqv(p.0@, split_g(a@))
                &&& vec_eqv(p.1@, split_f(a@, b@))
            },
            Err(e) => e == NumError::Overflow,
        },
{
    proof {
        use_type_invariant(a);
        Matrix::lemma_wf(*a);
        use_type_invariant(b);
        Vector::lemma_wf(*b);
    }
    let n = a.nrows();
    let mut grows: Vec<Vector> = Vec::new();
    let mut fents: Vec<Ratio> = Vec::new();
    let mut i: usize = 0;
    while i < n
        invariant
            i <= n,
            n as int == a@.len(),
            mat_square(a@, a@.len() as int),
            b@.len() == a@.len(),
            mat_wf(a@),
            rats_wf(b@),
            forall|k: int| 0 <= k < a@.len() ==> !rat_is_zero(#[trigger] a@[k][k]),
            grows@.len() == i as int,
            fents@.len() == i as int,
            forall|k: int| 0 <= k < i as int ==> (#[trigger] grows@[k]).inv(),
            forall|k: int| 0 <= k < i as int ==> (#[trigger] grows@[k])@.len() == n as int,
            forall|k: int|
                0 <= k < i as int ==> vec_eqv((#[trigger] grows@[k])@, split_g(a@)[k]),
            forall|k: int| 0 <= k < i as int ==> (#[trigger] fents@[k]).inv(),
            forall|k: int|
                0 <= k < i as int ==> rat_eqv((#[trigger] fents@[k])@, split_f(a@, b@)[k]),
        decreases n - i,
    {
        let aii = a.get(i, i);
        proof {
            use_type_invariant(&aii);
            Ratio::lemma_inv_wf(aii);
        }
        let mut row: Vec<Ratio> = Vec::new();
        let mut j: usize = 0;
        while j < n
            invariant
                j <= n,
                i < n,
                n as int == a@.len(),
                mat_square(a@, a@.len() as int),
                mat_wf(a@),
                forall|k: int| 0 <= k < a@.len() ==> !rat_is_zero(#[trigger] a@[k][k]),
                aii@ == a@[i as int][i as int],
                row@.len() == j as int,
                forall|k: int| 0 <= k < j as int ==> (#[trigger] row@[k]).inv(),
                forall|k: int|
                    0 <= k < j as int ==> rat_eqv(
                        (#[trigger] row@[k])@,
                        split_g(a@)[i as int][k],
                    ),
            decreases n - j,
        {
            if i == j {
                let z = Ratio::from_int(0);
                proof {
                    use_type_invariant(&z);
                }
                row.push(z);
            } else {
                let aij = a.get(i, j);
                let q = match aij.div(&aii) {
                    Ok(v) => v,
                    Err(e) => {
                        return Err(e);
                    },
                };
                let nq = match q.neg() {
                    Ok(v) => v,
                    Err(e) => {
                        return Err(e);
                    },
                };
                proof {
                    use_type_invariant(&aij);
                    Ratio::lemma_inv_wf(aij);
                    use_type_invariant(&q);
                    Ratio::lemma_inv_wf(q);
                    use_type_invariant(&nq);
                    Ratio::lemma_inv_wf(nq);
                    lemma_neg_congr(q@, rat_div(a@[i as int][j as int], a@[i as int][i as int]));
                    lemma_ops_wf(a@[i as int][j as int], a@[i as int][i as int]);
                    lemma_ops_wf(
                        rat_div(a@[i as int][j as int], a@[i as int][i as int]),
                        rat_div(a@[i as int][j as int], a@[i as int][i as int]),
                    );
                    lemma_eqv_trans(
                        nq@,
                        rat_neg(q@),
                        rat_neg(rat_div(a@[i as int][j as int], a@[i as int][i as int])),
                    );
                }
                row.push(nq);
            }
            j += 1;
        }
        let bi = b.get(i);
        let fq = match bi.div(&aii) {
            Ok(v) => v,
            Err(e) => {
                return Err(e);
            },
        };
        proof {
            use_type_invariant(&fq);
        }
        let rowv = Vector::from_ratios(row);
        proof {
            use_type_invariant(&rowv);
            assert(vec_eqv(rowv@, split_g(a@)[i as int]));
        }
        grows.push(rowv);
        fents.push(fq);
        i += 1;
    }
    let g = Matrix::from_rows(grows);
    let fv = Vector::from_ratios(fents);
    proof {
        assert(mat_eqv(g@, split_g(a@)));
        assert(vec_eqv(fv@, split_f(a@, b@)));
        assert(mat_square(g@, a@.len() as int));
    }
    Ok((g, fv))
}

/// Entrywise difference of two `Ratio` vectors, pinned to [`vsub`]
/// on the given spec vectors.
fn vec_sub_exec(
    u: &Vec<Ratio>,
    v: &Vec<Ratio>,
    Ghost(su): Ghost<Seq<Rat>>,
    Ghost(sv): Ghost<Seq<Rat>>,
) -> (r: Result<Vec<Ratio>, NumError>)
    requires
        u@.len() == v@.len(),
        ratios_inv(u@),
        ratios_inv(v@),
        rats_wf(su),
        rats_wf(sv),
        su.len() == u@.len(),
        sv.len() == v@.len(),
        vec_eqv(vec_rats(u@), su),
        vec_eqv(vec_rats(v@), sv),
    ensures
        match r {
            Ok(d) => {
                &&& d@.len() == u@.len()
                &&& ratios_inv(d@)
                &&& vec_eqv(vec_rats(d@), vsub(su, sv))
            },
            Err(e) => e == NumError::Overflow,
        },
{
    let mut out: Vec<Ratio> = Vec::new();
    let mut i: usize = 0;
    let n = u.len();
    while i < n
        invariant
            i <= n,
            n as int == u@.len(),
            u@.len() == v@.len(),
            ratios_inv(u@),
            ratios_inv(v@),
            rats_wf(su),
            rats_wf(sv),
            su.len() == u@.len(),
            sv.len() == v@.len(),
            vec_eqv(vec_rats(u@), su),
            vec_eqv(vec_rats(v@), sv),
            out@.len() == i as int,
            forall|k: int| 0 <= k < i as int ==> (#[trigger] out@[k]).inv(),
            forall|k: int|
                0 <= k < i as int ==> rat_eqv((#[trigger] out@[k])@, vsub(su, sv)[k]),
        decreases n - i,
    {
        let uv = u[i];
        let vv = v[i];
        proof {
            use_type_invariant(&uv);
            Ratio::lemma_inv_wf(uv);
            use_type_invariant(&vv);
            Ratio::lemma_inv_wf(vv);
        }
        let d = match uv.sub(&vv) {
            Ok(w) => w,
            Err(e) => {
                return Err(e);
            },
        };
        proof {
            use_type_invariant(&d);
            Ratio::lemma_inv_wf(d);
            assert(uv@ == vec_rats(u@)[i as int]);
            assert(vv@ == vec_rats(v@)[i as int]);
            assert(rat_eqv(uv@, su[i as int]));
            assert(rat_eqv(vv@, sv[i as int]));
            lemma_sub_congr(uv@, su[i as int], vv@, sv[i as int]);
            lemma_ops_wf(uv@, vv@);
            lemma_ops_wf(su[i as int], sv[i as int]);
            lemma_eqv_trans(d@, rat_sub(uv@, vv@), rat_sub(su[i as int], sv[i as int]));
        }
        out.push(d);
        i += 1;
    }
    Ok(out)
}

/// One Jacobi sweep `G x + f`, each entry pinned to the spec
/// splitting and iterate.
fn jac_next(
    g: &Matrix,
    fv: &Vector,
    x: &Vec<Ratio>,
    Ghost(sg): Ghost<Seq<Seq<Rat>>>,
    Ghost(sf): Ghost<Seq<Rat>>,
    Ghost(sx): Ghost<Seq<Rat>>,
) -> (r: Result<Vec<Ratio>, NumError>)
    requires
        mat_square(g@, g@.len() as int),
        fv@.len() == g@.len(),
        x@.len() == g@.len(),
        ratios_inv(x@),
        mat_wf(sg),
        rats_wf(sf),
        rats_wf(sx),
        mat_eqv(g@, sg),
        vec_eqv(fv@, sf),
        vec_eqv(vec_rats(x@), sx),
        sx.len() == g@.len(),
    ensures
        match r {
            Ok(nx) => {
                &&& nx@.len() == g@.len()
                &&& ratios_inv(nx@)
                &&& vec_eqv(vec_rats(nx@), vadd(mat_vec(sg, sx), sf))
            },
            Err(e) => e == NumError::Overflow,
        },
{
    proof {
        use_type_invariant(g);
        Matrix::lemma_wf(*g);
        use_type_invariant(fv);
        Vector::lemma_wf(*fv);
        lemma_ratios_inv_wf(x@);
    }
    let n = g.nrows();
    let mut out: Vec<Ratio> = Vec::new();
    let mut i: usize = 0;
    while i < n
        invariant
            i <= n,
            n as int == g@.len(),
            mat_square(g@, g@.len() as int),
            fv@.len() == g@.len(),
            x@.len() == g@.len(),
            ratios_inv(x@),
            mat_wf(g@),
            rats_wf(fv@),
            rats_wf(vec_rats(x@)),
            mat_wf(sg),
            rats_wf(sf),
            rats_wf(sx),
            mat_eqv(g@, sg),
            vec_eqv(fv@, sf),
            vec_eqv(vec_rats(x@), sx),
            sx.len() == g@.len(),
            out@.len() == i as int,
            forall|k: int| 0 <= k < i as int ==> (#[trigger] out@[k]).inv(),
            forall|k: int|
                0 <= k < i as int ==> rat_eqv(
                    (#[trigger] out@[k])@,
                    vadd(mat_vec(sg, sx), sf)[k],
                ),
        decreases n - i,
    {
        let row = g.row(i);
        let d = match dot_range(row, x, 0, n, 0) {
            Ok(v) => v,
            Err(e) => {
                return Err(e);
            },
        };
        let fi = fv.get(i);
        proof {
            use_type_invariant(&fi);
            Ratio::lemma_inv_wf(fi);
        }
        let e = match d.add(&fi) {
            Ok(v) => v,
            Err(e) => {
                return Err(e);
            },
        };
        proof {
            use_type_invariant(&d);
            Ratio::lemma_inv_wf(d);
            use_type_invariant(&e);
            Ratio::lemma_inv_wf(e);
            assert(g@[i as int].subrange(0, n as int) =~= g@[i as int]);
            assert(vec_rats(x@).subrange(0, n as int) =~= vec_rats(x@));
            assert(rats_wf(g@[i as int]));
            lemma_dot_wf(g@[i as int], vec_rats(x@));
            lemma_dot_congr(g@[i as int], sg[i as int], vec_rats(x@), sx);
            lemma_dot_wf(sg[i as int], sx);
            lemma_eqv_trans(d@, dot(g@[i as int], vec_rats(x@)), dot(sg[i as int], sx));
            lemma_add_congr(d@, dot(sg[i as int], sx), fi@, sf[i as int]);
            lemma_ops_wf(d@, fi@);
            lemma_ops_wf(dot(sg[i as int], sx), sf[i as int]);
            lemma_eqv_trans(
                e@,
                rat_add(d@, fi@),
                rat_add(dot(sg[i as int], sx), sf[i as int]),
            );
            assert(vadd(mat_vec(sg, sx), sf)[i as int] == rat_add(
                dot(sg[i as int], sx),
                sf[i as int],
            ));
        }
        out.push(e);
        i += 1;
    }
    Ok(out)
}

/// One Gauss–Seidel sweep, each entry combining the entries already
/// updated in the sweep with the old iterate, pinned to
/// [`gs_prefix`].
fn gs_next(
    g: &Matrix,
    fv: &Vector,
    x: &Vec<Ratio>,
    Ghost(sg): Ghost<Seq<Seq<Rat>>>,
    Ghost(sf): Ghost<Seq<Rat>>,
    Ghost(sx): Ghost<Seq<Rat>>,
) -> (r: Result<Vec<Ratio>, NumError>)
    requires
        mat_square(g@, g@.len() as int),
        fv@.len() == g@.len(),
        x@.len() == g@.len(),
        ratios_inv(x@),
        mat_wf(sg),
        rats_wf(sf),
        rats_wf(sx),
        mat_square(sg, g@.len() as int),
        sf.len() == g@.len(),
        sx.len() == g@.len(),
        mat_eqv(g@, sg),
        vec_eqv(fv@, sf),
        vec_eqv(vec_rats(x@), sx),
    ensures
        match r {
            Ok(nx) => {
                &&& nx@.len() == g@.len()
                &&& ratios_inv(nx@)
                &&& vec_eqv(vec_rats(nx@), gs_step(sg, sf, sx))
            },
            Err(e) => e == NumError::Overflow,
        },
{
    proof {
        use_type_invariant(g);
        Matrix::lemma_wf(*g);
        use_type_invariant(fv);
        Vector::lemma_wf(*fv);
        lemma_ratios_inv_wf(x@);
    }
    let n = g.nrows();
    let mut out: Vec<Ratio> = Vec::new();
    let mut i: usize = 0;
    while i < n
        invariant
            i <= n,
            n as int == g@.len(),
            mat_square(g@, g@.len() as int),
            fv@.len() == g@.len(),
            x@.len() == g@.len(),
            ratios_inv(x@),
            mat_wf(g@),
            rats_wf(fv@),
            rats_wf(vec_rats(x@)),
            mat_wf(sg),
            rats_wf(sf),
            rats_wf(sx),
            mat_square(sg, g@.len() as int),
            sf.len() == g@.len(),
            sx.len() == g@.len(),
            mat_eqv(g@, sg),
            vec_eqv(fv@, sf),
            vec_eqv(vec_rats(x@), sx),
            out@.len() == i as int,
            ratios_inv(out@),
            vec_eqv(vec_rats(out@), gs_prefix(sg, sf, sx, i as nat)),
        decreases n - i,
    {
        let ghost pre = gs_prefix(sg, sf, sx, i as nat);
        proof {
            lemma_gs_prefix_wf(sg, sf, sx, i as nat);
        }
        let row = g.row(i);
        let s1 = match dot_range(row, &out, 0, i, 0) {
            Ok(v) => v,
            Err(e) => {
                return Err(e);
            },
        };
        let s2 = match dot_range(row, x, i, n, i) {
            Ok(v) => v,
            Err(e) => {
                return Err(e);
            },
        };
        let fi = fv.get(i);
        proof {
            use_type_invariant(&fi);
            Ratio::lemma_inv_wf(fi);
        }
        let s12 = match s1.add(&s2) {
            Ok(v) => v,
            Err(e) => {
                return Err(e);
            },
        };
        let e = match s12.add(&fi) {
            Ok(v) => v,
            Err(e) => {
                return Err(e);
            },
        };
        proof {
            use_type_invariant(&s1);
            Ratio::lemma_inv_wf(s1);
            use_type_invariant(&s2);
            Ratio::lemma_inv_wf(s2);
            use_type_invariant(&s12);
            Ratio::lemma_inv_wf(s12);
            use_type_invariant(&e);
            Ratio::lemma_inv_wf(e);
            let grow = g@[i as int];
            let srow = sg[i as int];
            lemma_ratios_inv_wf(out@);
            // The two partial dot products match the spec entry's.
            assert(rats_wf(grow));
            assert(rats_wf(grow.subrange(0, i as int)));
            assert(rats_wf(vec_rats(out@).subrange(0, i as int)));
            assert(vec_rats(out@).subrange(0, i as int) =~= vec_rats(out@));
            assert(rats_wf(srow.subrange(0, i as int)));
            assert(vec_eqv(grow.subrange(0, i as int), srow.subrange(0, i as int)));
            lemma_dot_congr(
                grow.subrange(0, i as int),
                srow.subrange(0, i as int),
                vec_rats(out@),
                pre,
            );
            lemma_dot_wf(grow.subrange(0, i as int), vec_rats(out@));
            lemma_dot_wf(srow.subrange(0, i as int), pre);
            lemma_eqv_trans(
                s1@,
                dot(grow.subrange(0, i as int), vec_rats(out@)),
                dot(srow.subrange(0, i as int), pre),
            );
            assert(rats_wf(grow.subrange(i as int, n as int)));
            assert(rats_wf(vec_rats(x@).subrange(i as int, n as int)));
            assert(rats_wf(srow.subrange(i as int, srow.len() as int)));
            assert(rats_wf(sx.subrange(i as int, sx.len() as int)));
            assert(grow.subrange(i as int, n as int) =~= grow.subrange(
                i as int,
                grow.len() as int,
            ));
            assert(vec_eqv(
                grow.subrange(i as int, grow.len() as int),
                srow.subrange(i as int, srow.len() as int),
            ));
            assert(vec_eqv(
                vec_rats(x@).subrange(i as int, n as int),
                sx.subrange(i as int, sx.len() as int),
            ));
            lemma_dot_congr(
                grow.subrange(i as int, grow.len() as int),
                srow.subrange(i as int, srow.len() as int),
                vec_rats(x@).subrange(i as int, n as int),
                sx.subrange(i as int, sx.len() as int),
            );
            lemma_dot_wf(grow.subrange(i as int, grow.len() as int), vec_rats(x@).subrange(i as int, n as int));
            lemma_dot_wf(srow.subrange(i as int, srow.len() as int), sx.subrange(i as int, sx.len() as int));
            lemma_eqv_trans(
                s2@,
                dot(grow.subrange(i as int, grow.len() as int), vec_rats(x@).subrange(i as int, n as int)),
                dot(srow.subrange(i as int, srow.len() as int), sx.subrange(i as int, sx.len() as int)),
            );
            let sd1 = dot(srow.subrange(0, i as int), pre);
            let sd2 = dot(srow.subrange(i as int, srow.len() as int), sx.subrange(i as int, sx.len() as int));
            lemma_add_congr(s1@, sd1, s2@, sd2);
            lemma_ops_wf(s1@, s2@);
            lemma_ops_wf(sd1, sd2);
            lemma_eqv_trans(s12@, rat_add(s1@, s2@), rat_add(sd1, sd2));
            lemma_add_congr(s12@, rat_add(sd1, sd2), fi@, sf[i as int]);
            lemma_ops_wf(s12@, fi@);
            lemma_ops_wf(rat_add(sd1, sd2), sf[i as int]);
            lemma_eqv_trans(
                e@,
                rat_add(s12@, fi@),
                rat_add(rat_add(sd1, sd2), sf[i as int]),
            );
            assert(gs_prefix(sg, sf, sx, (i + 1) as nat) == pre.push(
                rat_add(rat_add(sd1, sd2), sf[i as int]),
            ));
        }
        let ghost out_before = out@;
        out.push(e);
        proof {
            assert(vec_rats(out@) =~= vec_rats(out_before).push(e@));
            assert(vec_eqv(vec_rats(out@), gs_prefix(sg, sf, sx, (i + 1) as nat)));
        }
        i += 1;
    }
    Ok(out)
}

/// The maximum norm of the residual `b - A x`, pinned to the spec
/// iterate `sx`.
fn residual_norm(
    a: &Matrix,
    b: &Vector,
    x: &Vec<Ratio>,
    Ghost(sx): Ghost<Seq<Rat>>,
) -> (r: Result<Ratio, NumError>)
    requires
        mat_square(a@, a@.len() as int),
        b@.len() == a@.len(),
        x@.len() == a@.len(),
        ratios_inv(x@),
        rats_wf(sx),
        sx.len() == a@.len(),
        vec_eqv(vec_rats(x@), sx),
    ensures
        match r {
            Ok(res) => rat_eqv(res@, vnorm(vsub(b@, mat_vec(a@, sx)))),
            Err(e) => e == NumError::Overflow,
        },
{
    proof {
        use_type_invariant(a);
        Matrix::lemma_wf(*a);
        use_type_invariant(b);
        Vector::lemma_wf(*b);
        lemma_ratios_inv_wf(x@);
    }
    let n = a.nrows();
    let mut diff: Vec<Ratio> = Vec::new();
    let mut i: usize = 0;
    while i < n
        invariant
            i <= n,
            n as int == a@.len(),
            mat_square(a@, a@.len() as int),
            b@.len() == a@.len(),
            x@.len() == a@.len(),
            ratios_inv(x@),
            mat_wf(a@),
            rats_wf(b@),
            rats_wf(vec_rats(x@)),
            rats_wf(sx),
            sx.len() == a@.len(),
            vec_eqv(vec_rats(x@), sx),
            diff@.len() == i as int,
            forall|k: int| 0 <= k < i as int ==> (#[trigger] diff@[k]).inv(),
            forall|k: int|
                0 <= k < i as int ==> rat_eqv(
                    (#[trigger] diff@[k])@,
                    vsub(b@, mat_vec(a@, sx))[k],
                ),
        decreases n - i,
    {
        let row = a.row(i);
        let d = match dot_range(row, x, 0, n, 0) {
            Ok(v) => v,
            Err(e) => {
                return Err(e);
            },
        };
        let bi = b.get(i);
        proof {
            use_type_invariant(&bi);
            Ratio::lemma_inv_wf(bi);
        }
        let e = match bi.sub(&d) {
            Ok(v) => v,
            Err(e) => {
                return Err(e);
            },
        };
        proof {
            use_type_invariant(&d);
            Ratio::lemma_inv_wf(d);
            use_type_invariant(&e);
            Ratio::lemma_inv_wf(e);
            assert(a@[i as int].subrange(0, n as int) =~= a@[i as int]);
            assert(vec_rats(x@).subrange(0, n as int) =~= vec_rats(x@));
            assert(rats_wf(a@[i as int]));
            lemma_dot_wf(a@[i as int], vec_rats(x@));
            lemma_dot_congr(a@[i as int], a@[i as int], vec_rats(x@), sx);
            lemma_dot_wf(a@[i as int], sx);
            lemma_eqv_trans(d@, dot(a@[i as int], vec_rats(x@)), dot(a@[i as int], sx));
            lemma_sub_congr(bi@, b@[i as int], d@, dot(a@[i as int], sx));
            lemma_ops_wf(bi@, d@);
            lemma_ops_wf(b@[i as int], dot(a@[i as int], sx));
            lemma_eqv_trans(
                e@,
                rat_sub(bi@, d@),
                rat_sub(b@[i as int], dot(a@[i as int], sx)),
            );
            assert(vsub(b@, mat_vec(a@, sx))[i as int] == rat_sub(
                b@[i as int],
                dot(a@[i as int], sx),
            ));
        }
        diff.push(e);
        i += 1;
    }
    let nv = match vnorm_exec(&diff) {
        Ok(v) => v,
        Err(e) => {
            return Err(e);
        },
    };
    proof {
        use_type_invariant(&nv);
        Ratio::lemma_inv_wf(nv);
        lemma_matvec_wf(a@, sx);
        lemma_vops_wf(b@, mat_vec(a@, sx));
        assert(vec_eqv(vec_rats(diff@), vsub(b@, mat_vec(a@, sx))));
        lemma_ratios_inv_wf(diff@);
        lemma_vnorm_congr(vec_rats(diff@), vsub(b@, mat_vec(a@, sx)));
        lemma_vnorm_wf(vec_rats(diff@));
        lemma_vnorm_wf(vsub(b@, mat_vec(a@, sx)));
        lemma_eqv_trans(nv@, vnorm(vec_rats(diff@)), vnorm(vsub(b@, mat_vec(a@, sx))));
    }
    Ok(nv)
}

impl Vector {
    /// The entries, as a plain vector of rationals.
    pub fn to_ratios(&self) -> (r: Vec<Ratio>)
        ensures
            r@.len() == self@.len(),
            ratios_inv(r@),
            vec_rats(r@) == self@,
    {
        proof {
            use_type_invariant(self);
        }
        let mut out: Vec<Ratio> = Vec::new();
        let mut i: usize = 0;
        while i < self.data.len()
            invariant
                i <= self.data@.len(),
                self.inv(),
                out@.len() == i as int,
                forall|j: int| 0 <= j < i as int ==> out@[j] == self.data@[j],
                forall|j: int| 0 <= j < i as int ==> (#[trigger] out@[j]).inv(),
            decreases self.data@.len() - i as int,
        {
            let c = self.data[i];
            proof {
                use_type_invariant(&c);
            }
            out.push(c);
            i += 1;
        }
        proof {
            assert(vec_rats(out@) =~= self@);
        }
        out
    }
}

/// The largest entry magnitude of a row, pinned to [`row_abs_sum`].
fn row_abs_sum_exec(u: &Vector) -> (r: Result<Ratio, NumError>)
    ensures
        match r {
            Ok(res) => rat_eqv(res@, row_abs_sum(u@)) && rat_wf(row_abs_sum(u@)),
            Err(e) => e == NumError::Overflow,
        },
{
    proof {
        use_type_invariant(u);
        Vector::lemma_wf(*u);
    }
    let mut acc = Ratio::from_int(0);
    let mut i: usize = u.len();
    proof {
        assert(u@.subrange(i as int, i as int) =~= Seq::<Rat>::empty());
    }
    while i > 0
        invariant
            i <= u@.len(),
            rats_wf(u@),
            rat_eqv(acc@, row_abs_sum(u@.subrange(i as int, u@.len() as int))),
            rat_wf(row_abs_sum(u@.subrange(i as int, u@.len() as int))),
        decreases i,
    {
        i = i - 1;
        let ghost acc_old = acc@;
        let ghost tail = u@.subrange(i as int + 1, u@.len() as int);
        let ghost here = u@.subrange(i as int, u@.len() as int);
        let uv = u.get(i);
        proof {
            use_type_invariant(&uv);
            Ratio::lemma_inv_wf(uv);
        }
        let av = match uv.abs() {
            Ok(w) => w,
            Err(e) => {
                return Err(e);
            },
        };
        let next = match av.add(&acc) {
            Ok(w) => w,
            Err(e) => {
                return Err(e);
            },
        };
        proof {
            use_type_invariant(&av);
            Ratio::lemma_inv_wf(av);
            use_type_invariant(&acc);
            Ratio::lemma_inv_wf(acc);
            use_type_invariant(&next);
            Ratio::lemma_inv_wf(next);
            assert(here[0] == u@[i as int]);
            assert(here.subrange(1, here.len() as int) =~= tail);
            assert(rats_wf(tail));
            lemma_row_abs_sum_wf(tail);
            lemma_ops_wf(here[0], here[0]);
            lemma_add_congr(av@, rat_abs(here[0]), acc_old, row_abs_sum(tail));
            lemma_ops_wf(av@, acc_old);
            lemma_ops_wf(rat_abs(here[0]), row_abs_sum(tail));
            lemma_eqv_trans(
                next@,
                rat_add(av@, acc_old),
                rat_add(rat_abs(here[0]), row_abs_sum(tail)),
            );
            assert(row_abs_sum(here) == rat_add(rat_abs(here[0]), row_abs_sum(tail)));
        }
        acc = next;
    }
    proof {
        assert(u@.subrange(0, u@.len() as int) =~= u@);
    }
    Ok(acc)
}

/// The maximum norm of a matrix, pinned to [`mnorm`].
fn mnorm_exec(g: &Matrix) -> (r: Result<Ratio, NumError>)
    ensures
        match r {
            Ok(res) => rat_eqv(res@, mnorm(g@)) && rat_wf(mnorm(g@)),
            Err(e) => e == NumError::Overflow,
        },
{
    proof {
        use_type_invariant(g);
        Matrix::lemma_wf(*g);
    }
    let mut acc = Ratio::from_int(0);
    let mut i: usize = g.nrows();
    proof {
        assert(g@.subrange(i as int, i as int) =~= Seq::<Seq<Rat>>::empty());
    }
    while i > 0
        invariant
            i <= g@.len(),
            g.inv(),
            mat_wf(g@),
            rat_eqv(acc@, mnorm(g@.subrange(i as int, g@.len() as int))),
            rat_wf(mnorm(g@.subrange(i as int, g@.len() as int))),
        decreases i,
    {
        i = i - 1;
        let ghost acc_old = acc@;
        let ghost tail = g@.subrange(i as int + 1, g@.len() as int);
        let ghost here = g@.subrange(i as int, g@.len() as int);
        let row = g.row(i);
        let sv = match row_abs_sum_exec(row) {
            Ok(w) => w,
            Err(e) => {
                return Err(e);
            },
        };
        proof {
            use_type_invariant(&sv);
            Ratio::lemma_inv_wf(sv);
            use_type_invariant(&acc);
            Ratio::lemma_inv_wf(acc);
            assert(here[0] == g@[i as int]);
            assert(here.subrange(1, here.len() as int) =~= tail);
            assert(mat_wf(tail));
            lemma_mnorm_wf(tail);
            lemma_cmp_congr(sv@, row_abs_sum(here[0]), acc_old, mnorm(tail));
            assert(mnorm(here) == (if rat_le(row_abs_sum(here[0]), mnorm(tail)) {
                mnorm(tail)
            } else {
                row_abs_sum(here[0])
            }));
        }
        if sv.le(&acc) {
            // keep acc
        } else {
            acc = sv;
        }
    }
    proof {
        assert(g@.subrange(0, g@.len() as int) =~= g@);
    }
    Ok(acc)
}

/// Copies a `Ratio` vector entry by entry.
fn copy_ratios(v: &Vec<Ratio>) -> (r: Vec<Ratio>)
    ensures
        r@ == v@,
{
    let mut out: Vec<Ratio> = Vec::new();
    let mut i: usize = 0;
    let n = v.len();
    while i < n
        invariant
            i <= n,
            n as int == v@.len(),
            out@.len() == i as int,
            forall|j: int| 0 <= j < i as int ==> out@[j] == v@[j],
        decreases n - i,
    {
        out.push(v[i]);
        i += 1;
    }
    proof {
        assert(out@ =~= v@);
    }
    out
}

/// The result of an iterative solve: the iterates visited, the
/// solution vector, the step count, the final movement, and the
/// residual norm `||b - A x||`.
pub struct SolutionLinear {
    /// Every iterate visited, starting with `G f + f`.
    pub trace: Vec<Vector>,
    /// The final iterate.
    pub x: Vector,
    /// The number of sweeps taken.
    pub iterations: usize,
    /// The maximum norm of the last movement (zero when no sweep ran).
    pub error: Ratio,
    /// The maximum norm of the residual `b - A x`.
    pub residual: Ratio,
}

/// The shared driver of both schemes: checks the system, builds the
/// splitting, and iterates the scheme selected by `seidel` until the
/// movement is at most the scaled tolerance.
#[verifier::rlimit(100)]
#[verifier::spinoff_prover]
fn iterate_scheme(
    a: &Matrix,
    b: &Vector,
    epsilon: &Ratio,
    max_iterations: usize,
    seidel: bool,
) -> (r: Result<SolutionLinear, NumError>)
    ensures
        !lin_shape_ok(a@, b@) ==> r == Result::<SolutionLinear, NumError>::Err(
            NumError::DomainError,
        ),
        lin_shape_ok(a@, b@) ==> ({
            let sg = split_g(a@);
            let sf = split_f(a@, b@);
            let zero_diag = exists|i: int|
                0 <= i < a@.len() && rat_is_zero(#[trigger] a@[i][i]);
            &&& ((r == Result::<SolutionLinear, NumError>::Err(NumError::SingularSystem))
                <==> zero_diag)
            &&& !zero_diag ==> {
                &&& (r == Result::<SolutionLinear, NumError>::Err(NumError::NotConvergent)
                    ==> !rat_lt(mnorm(sg), rat_of_int(1)))
                &&& (!rat_lt(mnorm(sg), rat_of_int(1)) ==> (r == Result::<
                    SolutionLinear,
                    NumError,
                >::Err(NumError::NotConvergent) || r == Result::<SolutionLinear, NumError>::Err(
                    NumError::Overflow,
                )))
                &&& match r {
                    Ok(sol) => {
                        let it = sol.iterations as nat;
                        &&& sol.trace@.len() == sol.iterations + 1
                        &&& forall|k: int|
                            0 <= k <= sol.iterations as int ==> vec_eqv(
                                (#[trigger] sol.trace@[k])@,
                                lin_iter(sg, sf, seidel, k as nat),
                            )
                        &&& vec_eqv(sol.x@, lin_iter(sg, sf, seidel, it))
                        &&& rat_eqv(
                            sol.residual@,
                            vnorm(vsub(b@, mat_vec(a@, lin_iter(sg, sf, seidel, it)))),
                        )
                        &&& (rat_is_zero(mnorm(sg)) ==> sol.iterations == 0)
                        &&& (!rat_is_zero(mnorm(sg)) ==> {
                            &&& 1 <= sol.iterations <= max_iterations
                            &&& lin_small_step(sg, sf, epsilon@, seidel, it)
                            &&& forall|k: nat|
                                1 <= k < it ==> !lin_small_step(sg, sf, epsilon@, seidel, k)
                            &&& rat_eqv(
                                sol.error@,
                                vnorm(
                                    vsub(
                                        lin_iter(sg, sf, seidel, it),
                                        lin_iter(sg, sf, seidel, (it - 1) as nat),
                                    ),
                                ),
                            )
                        })
                    },
                    Err(e) => {
                        &&& (e == NumError::NotConvergent || e == NumError::DidNotConverge || e
                            == NumError::Overflow)
                        &&& e == NumError::DidNotConverge ==> forall|k: nat|
                            1 <= k <= max_iterations as nat ==> !lin_small_step(
                                sg,
                                sf,
                                epsilon@,
                                seidel,
                                k,
                            )
                    },
                }
            }
        }),
{
    proof {
        use_type_invariant(a);
        Matrix::lemma_wf(*a);
        use_type_invariant(b);
        Vector::lemma_wf(*b);
        use_type_invariant(epsilon);
        Ratio::lemma_inv_wf(*epsilon);
    }
    let n = a.nrows();
    if n == 0 || b.len() != n {
        return Err(NumError::DomainError);
    }
    let mut i: usize = 0;
    while i < n
        invariant
            i <= n,
            n as int == a@.len(),
            forall|k: int| 0 <= k < i as int ==> (#[trigger] a@[k]).len() == n as int,
        decreases n - i,
    {
        if a.row(i).len() != n {
            return Err(NumError::DomainError);
        }
        i += 1;
    }
    proof {
        assert(lin_shape_ok(a@, b@));
    }
    let mut i: usize = 0;
    while i < n
        invariant
            i <= n,
            n as int == a@.len(),
            lin_shape_ok(a@, b@),
            forall|k: int| 0 <= k < i as int ==> !rat_is_zero(#[trigger] a@[k][k]),
        decreases n - i,
    {
        if a.get(i, i).is_zero() {
            return Err(NumError::SingularSystem);
        }
        i += 1;
    }
    let ghost sg = split_g(a@);
    let ghost sf = split_f(a@, b@);
    proof {
        lemma_split_wf(a@, b@);
    }
    let built = match build_split(a, b) {
        Ok(v) => v,
        Err(e) => {
            return Err(e);
        },
    };
    let g = built.0;
    let fv = built.1;
    let norm = match mnorm_exec(&g) {
        Ok(v) => v,
        Err(e) => {
            return Err(e);
        },
    };
    let one = Ratio::from_int(1);
    proof {
        use_type_invariant(&norm);
        Ratio::lemma_inv_wf(norm);
        use_type_invariant(&g);
        Matrix::lemma_wf(g);
        use_type_invariant(&fv);
        Vector::lemma_wf(fv);
        lemma_mnorm_wf(g@);
        lemma_mnorm_wf(sg);
        lemma_mnorm_congr(g@, sg);
        lemma_eqv_trans(norm@, mnorm(g@), mnorm(sg));
        lemma_cmp_congr(norm@, mnorm(sg), one@, rat_of_int(1));
        lemma_cmp_congr(norm@, mnorm(sg), norm@, mnorm(sg));
    }
    // A zero iteration matrix converges in the starting step; the
    // scaled tolerance is not even formed.
    if norm.is_zero() {
        let fr = fv.to_ratios();
        let x0 = match jac_next(&g, &fv, &fr, Ghost(sg), Ghost(sf), Ghost(sf)) {
            Ok(v) => v,
            Err(e) => {
                return Err(e);
            },
        };
        proof {
            lemma_jac_iter_wf(sg, sf, 0);
            assert(vadd(mat_vec(sg, sf), sf) == lin_iter(sg, sf, false, 0));
            assert(lin_iter(sg, sf, seidel, 0) == lin_iter(sg, sf, false, 0));
        }
        let residual = match residual_norm(a, b, &x0, Ghost(lin_iter(sg, sf, seidel, 0))) {
            Ok(v) => v,
            Err(e) => {
                return Err(e);
            },
        };
        let t0 = Vector::from_ratios(copy_ratios(&x0));
        let mut trace: Vec<Vector> = Vec::new();
        trace.push(t0);
        let xv = Vector::from_ratios(x0);
        proof {
            assert(vec_eqv(xv@, lin_iter(sg, sf, seidel, 0)));
            assert(vec_eqv(trace@[0]@, lin_iter(sg, sf, seidel, 0)));
        }
        return Ok(
            SolutionLinear {
                trace,
                x: xv,
                iterations: 0,
                error: Ratio::from_int(0),
                residual,
            },
        );
    }
    if !norm.lt(&one) {
        return Err(NumError::NotConvergent);
    }
    let num = match one.sub(&norm) {
        Ok(v) => v,
        Err(e) => {
            return Err(e);
        },
    };
    let q = match num.div(&norm) {
        Ok(v) => v,
        Err(e) => {
            return Err(e);
        },
    };
    let seps = match q.mul(epsilon) {
        Ok(v) => v,
        Err(e) => {
            return Err(e);
        },
    };
    proof {
        use_type_invariant(&num);
        Ratio::lemma_inv_wf(num);
        use_type_invariant(&q);
        Ratio::lemma_inv_wf(q);
        use_type_invariant(&seps);
        Ratio::lemma_inv_wf(seps);
        lemma_sub_congr(one@, rat_of_int(1), norm@, mnorm(sg));
        lemma_ops_wf(one@, norm@);
        lemma_ops_wf(rat_of_int(1), mnorm(sg));
        lemma_eqv_trans(num@, rat_sub(one@, norm@), rat_sub(rat_of_int(1), mnorm(sg)));
        lemma_div_congr(num@, rat_sub(rat_of_int(1), mnorm(sg)), norm@, mnorm(sg));
        lemma_ops_wf(num@, norm@);
        lemma_ops_wf(rat_sub(rat_of_int(1), mnorm(sg)), mnorm(sg));
        lemma_eqv_trans(
            q@,
            rat_div(num@, norm@),
            rat_div(rat_sub(rat_of_int(1), mnorm(sg)), mnorm(sg)),
        );
        lemma_mul_congr(
            q@,
            rat_div(rat_sub(rat_of_int(1), mnorm(sg)), mnorm(sg)),
            epsilon@,
            epsilon@,
        );
        lemma_ops_wf(q@, epsilon@);
        lemma_ops_wf(rat_div(rat_sub(rat_of_int(1), mnorm(sg)), mnorm(sg)), epsilon@);
        lemma_eqv_trans(seps@, rat_mul(q@, epsilon@), scaled_eps(sg, epsilon@));
    }
    let fr = fv.to_ratios();
    let mut x = match jac_next(&g, &fv, &fr, Ghost(sg), Ghost(sf), Ghost(sf)) {
        Ok(v) => v,
        Err(e) => {
            return Err(e);
        },
    };
    proof {
        lemma_jac_iter_wf(sg, sf, 0);
        lemma_sei_iter_wf(sg, sf, 0);
        assert(vadd(mat_vec(sg, sf), sf) == lin_iter(sg, sf, false, 0));
        assert(lin_iter(sg, sf, seidel, 0) == lin_iter(sg, sf, false, 0));
    }
    let mut trace: Vec<Vector> = Vec::new();
    trace.push(Vector::from_ratios(copy_ratios(&x)));
    proof {
        assert(vec_eqv(trace@[0]@, lin_iter(sg, sf, seidel, 0)));
    }
    let mut it: usize = 0;
    while it < max_iterations
        invariant
            it <= max_iterations,
            n as int == a@.len(),
            lin_shape_ok(a@, b@),
            forall|k: int| 0 <= k < a@.len() ==> !rat_is_zero(#[trigger] a@[k][k]),
            sg == split_g(a@),
            sf == split_f(a@, b@),
            mat_wf(sg),
            rats_wf(sf),
            mat_square(sg, a@.len() as int),
            sf.len() == a@.len(),
            g@.len() == n as int,
            mat_square(g@, n as int),
            fv@.len() == n as int,
            g.inv(),
            fv.inv(),
            mat_eqv(g@, sg),
            vec_eqv(fv@, sf),
            rat_wf(epsilon@),
            rat_lt(mnorm(sg), rat_of_int(1)),
            !rat_is_zero(mnorm(sg)),
            rat_wf(scaled_eps(sg, epsilon@)),
            rat_eqv(seps@, scaled_eps(sg, epsilon@)),
            seps.inv(),
            x@.len() == n as int,
            ratios_inv(x@),
            trace@.len() == it + 1,
            forall|k: int|
                0 <= k <= it as int ==> vec_eqv(
                    (#[trigger] trace@[k])@,
                    lin_iter(sg, sf, seidel, k as nat),
                ),
            rats_wf(lin_iter(sg, sf, seidel, it as nat)),
            lin_iter(sg, sf, seidel, it as nat).len() == n as int,
            vec_eqv(vec_rats(x@), lin_iter(sg, sf, seidel, it as nat)),
            forall|k: nat|
                1 <= k <= it as nat ==> !lin_small_step(sg, sf, epsilon@, seidel, k),
        decreases max_iterations - it,
    {
        let ghost cur = lin_iter(sg, sf, seidel, it as nat);
        let ghost nxt = lin_iter(sg, sf, seidel, (it + 1) as nat);
        let next = if seidel {
            match gs_next(&g, &fv, &x, Ghost(sg), Ghost(sf), Ghost(cur)) {
                Ok(v) => v,
                Err(e) => {
                    return Err(e);
                },
            }
        } else {
            match jac_next(&g, &fv, &x, Ghost(sg), Ghost(sf), Ghost(cur)) {
                Ok(v) => v,
                Err(e) => {
                    return Err(e);
                },
            }
        };
        proof {
            if seidel {
                assert(nxt == gs_step(sg, sf, cur));
                lemma_sei_iter_wf(sg, sf, (it + 1) as nat);
            } else {
                assert(nxt == vadd(mat_vec(sg, cur), sf));
                lemma_jac_iter_wf(sg, sf, (it + 1) as nat);
            }
            lemma_ratios_inv_wf(next@);
        }
        let diff = match vec_sub_exec(&next, &x, Ghost(nxt), Ghost(cur)) {
            Ok(v) => v,
            Err(e) => {
                return Err(e);
            },
        };
        let err = match vnorm_exec(&diff) {
            Ok(v) => v,
            Err(e) => {
                return Err(e);
            },
        };
        proof {
            use_type_invariant(&err);
            Ratio::lemma_inv_wf(err);
            use_type_invariant(&seps);
            Ratio::lemma_inv_wf(seps);
            lemma_ratios_inv_wf(diff@);
            lemma_vops_wf(nxt, cur);
            lemma_vnorm_congr(vec_rats(diff@), vsub(nxt, cur));
            lemma_vnorm_wf(vec_rats(diff@));
            lemma_vnorm_wf(vsub(nxt, cur));
            lemma_eqv_trans(err@, vnorm(vec_rats(diff@)), vnorm(vsub(nxt, cur)));
            lemma_cmp_congr(err@, vnorm(vsub(nxt, cur)), seps@, scaled_eps(sg, epsilon@));
        }
        it = it + 1;
        x = next;
        trace.push(Vector::from_ratios(copy_ratios(&x)));
        proof {
            assert(vec_eqv(trace@[it as int]@, lin_iter(sg, sf, seidel, it as nat)));
        }
        if err.le(&seps) {
            let residual = match residual_norm(a, b, &x, Ghost(lin_iter(sg, sf, seidel, it as nat))) {
                Ok(v) => v,
                Err(e) => {
                    return Err(e);
                },
            };
            let xv = Vector::from_ratios(x);
            proof {
                assert(vec_eqv(xv@, lin_iter(sg, sf, seidel, it as nat)));
            }
            return Ok(SolutionLinear { trace, x: xv, iterations: it, error: err, residual });
        }
    }
    Err(NumError::DidNotConverge)
}

/// Jacobi (simple) iteration `x_{k+1} = G x_k + f`: every entry of a
/// sweep is computed from the previous iterate. Rejects a system
/// whose iteration matrix has norm at least one as
/// [`NumError::NotConvergent`], and a zero diagonal entry as
/// [`NumError::SingularSystem`].
pub fn simple_iterations_method(
    a: &Matrix,
    b: &Vector,
    epsilon: &Ratio,
    max_iterations: usize,
) -> (r: Result<SolutionLinear, NumError>)
    ensures
        !lin_shape_ok(a@, b@) ==> r == Result::<SolutionLinear, NumError>::Err(
            NumError::DomainError,
        ),
        lin_shape_ok(a@, b@) ==> ({
            let sg = split_g(a@);
            let sf = split_f(a@, b@);
            let zero_diag = exists|i: int|
                0 <= i < a@.len() && rat_is_zero(#[trigger] a@[i][i]);
            &&& ((r == Result::<SolutionLinear, NumError>::Err(NumError::SingularSystem))
                <==> zero_diag)
            &&& !zero_diag ==> {
                &&& (r == Result::<SolutionLinear, NumError>::Err(NumError::NotConvergent)
                    ==> !rat_lt(mnorm(sg), rat_of_int(1)))
                &&& (!rat_lt(mnorm(sg), rat_of_int(1)) ==> (r == Result::<
                    SolutionLinear,
                    NumError,
                >::Err(NumError::NotConvergent) || r == Result::<SolutionLinear, NumError>::Err(
                    NumError::Overflow,
                )))
                &&& match r {
                    Ok(sol) => {
                        let it = sol.iterations as nat;
                        &&& sol.trace@.len() == sol.iterations + 1
                        &&& forall|k: int|
                            0 <= k <= sol.iterations as int ==> vec_eqv(
                                (#[trigger] sol.trace@[k])@,
                                jac_iter(sg, sf, k as nat),
                            )
                        &&& vec_eqv(sol.x@, jac_iter(sg, sf, it))
                        &&& rat_eqv(
                            sol.residual@,
                            vnorm(vsub(b@, mat_vec(a@, jac_iter(sg, sf, it)))),
                        )
                        &&& (rat_is_zero(mnorm(sg)) ==> sol.iterations == 0)
                        &&& (!rat_is_zero(mnorm(sg)) ==> {
                            &&& 1 <= sol.iterations <= max_iterations
                            &&& lin_small_step(sg, sf, epsilon@, false, it)
                            &&& forall|k: nat|
                                1 <= k < it ==> !lin_small_step(sg, sf, epsilon@, false, k)
                        })
                    },
                    Err(e) => {
                        &&& (e == NumError::NotConvergent || e == NumError::DidNotConverge || e
                            == NumError::Overflow)
                        &&& e == NumError::DidNotConverge ==> forall|k: nat|
                            1 <= k <= max_iterations as nat ==> !lin_small_step(
                                sg,
                                sf,
                                epsilon@,
                                false,
                                k,
                            )
                    },
                }
            }
        }),
{
    iterate_scheme(a, b, epsilon, max_iterations, false)
}

/// Gauss–Seidel iteration: each entry of a sweep uses the entries
/// already updated in the same sweep and the old entries after it.
/// Rejects a system whose iteration matrix has norm at least one as
/// [`NumError::NotConvergent`], and a zero diagonal entry as
/// [`NumError::SingularSystem`].
pub fn seidel_method(
    a: &Matrix,
    b: &Vector,
    epsilon: &Ratio,
    max_iterations: usize,
) -> (r: Result<SolutionLinear, NumError>)
    ensures
        !lin_shape_ok(a@, b@) ==> r == Result::<SolutionLinear, NumError>::Err(
            NumError::DomainError,
        ),
        lin_shape_ok(a@, b@) ==> ({
            let sg = split_g(a@);
            let sf = split_f(a@, b@);
            let zero_diag = exists|i: int|
                0 <= i < a@.len() && rat_is_zero(#[trigger] a@[i][i]);
            &&& ((r == Result::<SolutionLinear, NumError>::Err(NumError::SingularSystem))
                <==> zero_diag)
            &&& !zero_diag ==> {
                &&& (r == Result::<SolutionLinear, NumError>::Err(NumError::NotConvergent)
                    ==> !rat_lt(mnorm(sg), rat_of_int(1)))
                &&& (!rat_lt(mnorm(sg), rat_of_int(1)) ==> (r == Result::<
                    SolutionLinear,
                    NumError,
                >::Err(NumError::NotConvergent) || r == Result::<SolutionLinear, NumError>::Err(
                    NumError::Overflow,
                )))
                &&& match r {
                    Ok(sol) => {
                        let it = sol.iterations as nat;
                        &&& sol.trace@.len() == sol.iterations + 1
                        &&& forall|k: int|
                            0 <= k <= sol.iterations as int ==> vec_eqv(
                                (#[trigger] sol.trace@[k])@,
                                sei_iter(sg, sf, k as nat),
                            )
                        &&& vec_eqv(sol.x@, sei_iter(sg, sf, it))
                        &&& rat_eqv(
                            sol.residual@,
                            vnorm(vsub(b@, mat_vec(a@, sei_iter(sg, sf, it)))),
                        )
                        &&& (rat_is_zero(mnorm(sg)) ==> sol.iterations == 0)
                        &&& (!rat_is_zero(mnorm(sg)) ==> {
                            &&& 1 <= sol.iterations <= max_iterations
                            &&& lin_small_step(sg, sf, epsilon@, true, it)
                            &&& forall|k: nat|
                                1 <= k < it ==> !lin_small_step(sg, sf, epsilon@, true, k)
                        })
                    },
                    Err(e) => {
                        &&& (e == NumError::NotConvergent || e == NumError::DidNotConverge || e
                            == NumError::Overflow)
                        &&& e == NumError::DidNotConverge ==> forall|k: nat|
                            1 <= k <= max_iterations as nat ==> !lin_small_step(
                                sg,
                                sf,
                                epsilon@,
                                true,
                                k,
                            )
                    },
                }
            }
        }),
{
    iterate_scheme(a, b, epsilon, max_iterations, true)
}

} // verus!
