//! Sample points.
//!
//! A [`Point`] pairs an abscissa with an ordinate, both exact
//! rationals. Algorithms produce points as samples of functions or as
//! iterates of a method.

use vstd::prelude::*;

use crate::rat::{rat_wf, Rat, Ratio};

verus! {

/// The spec-level model of a point: a pair of rational values.
pub ghost struct PointV {
    pub x: Rat,
    pub y: Rat,
}

/// The model is well-formed.
pub open spec fn point_wf(p: PointV) -> bool {
    rat_wf(p.x) && rat_wf(p.y)
}

/// Two point models denote the same pair of rational values.
pub open spec fn point_eqv(p: PointV, q: PointV) -> bool {
    crate::rat::rat_eqv(p.x, q.x) && crate::rat::rat_eqv(p.y, q.y)
}

/// A sample `(x, y)` of exact rationals.
#[derive(Clone, Copy, Debug)]
pub struct Point {
    x: Ratio,
    y: Ratio,
}

impl View for Point {
    type V = PointV;

    closed spec fn view(&self) -> PointV {
        PointV { x: self.x@, y: self.y@ }
    }
}

impl Point {
    /// Both coordinates satisfy the rational invariant.
    #[verifier::type_invariant]
    pub closed spec fn inv(self) -> bool {
        self.x.inv() && self.y.inv()
    }

    /// The internal invariant guarantees a well-formed model.
    pub proof fn lemma_inv_wf(p: Point)
        requires
            p.inv(),
        ensures
            point_wf(p@),
    {
        Ratio::lemma_inv_wf(p.x);
        Ratio::lemma_inv_wf(p.y);
    }

    /// Pairs the two coordinates into a point.
    pub fn new(x: Ratio, y: Ratio) -> (p: Point)
        ensures
            p@.x == x@,
            p@.y == y@,
    {
        proof {
            use_type_invariant(&x);
            use_type_invariant(&y);
        }
        Point { x, y }
    }

    /// The abscissa.
    pub fn x(&self) -> (r: Ratio)
        ensures
            r@ == self@.x,
    {
        proof {
            use_type_invariant(self);
        }
        self.x
    }

    /// The ordinate.
    pub fn y(&self) -> (r: Ratio)
        ensures
            r@ == self@.y,
    {
        proof {
            use_type_invariant(self);
        }
        self.y
    }
}

} // verus!
