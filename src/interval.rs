//! Operations on pairs of half-open intervals `[start, end)`.
//!
//! An interval is modelled by the pair of keys of its bounds. A pair whose
//! first key is not below its second is empty (degenerate).
use crate::domain::Domain;
use std::ops::Range;
use vstd::prelude::*;

verus! {

/// Intersection of two key pairs: `None` when they share no point, including
/// when they only touch at a boundary.
pub open spec fn intersection_of(a: (int, int), b: (int, int)) -> Option<(int, int)> {
    let (p, q) = if a.0 > b.0 {
        (b, a)
    } else {
        (a, b)
    };
    if p.1 <= q.0 {
        None
    } else {
        Some((q.0, if p.1 <= q.1 { p.1 } else { q.1 }))
    }
}

/// Union of two key pairs: `None` when a strict gap separates them, so that
/// overlapping and touching pairs merge.
pub open spec fn union_of(a: (int, int), b: (int, int)) -> Option<(int, int)> {
    let (p, q) = if a.0 > b.0 {
        (b, a)
    } else {
        (a, b)
    };
    if p.1 < q.0 {
        None
    } else {
        Some((p.0, if p.1 >= q.1 { p.1 } else { q.1 }))
    }
}

/// The pairs share a stretch of nonzero length.
pub open spec fn overlaps_of(a: (int, int), b: (int, int)) -> bool {
    a.1 > b.0 && a.0 < b.1
}

/// The pairs overlap, contain one another, or meet at a boundary.
pub open spec fn touches_of(a: (int, int), b: (int, int)) -> bool {
    a.1 >= b.0 && a.0 <= b.1
}

/// `a` covers `b`.
pub open spec fn dominates_of(a: (int, int), b: (int, int)) -> bool {
    a.0 <= b.0 && a.1 >= b.1
}

/// One of the pairs brackets the other.
pub open spec fn dominates_either_of(a: (int, int), b: (int, int)) -> bool {
    (b.0 - a.0) * (b.1 - a.1) <= 0
}

/// The inclusive lower bound of an interval.
pub trait InclusiveMin<T> {
    spec fn spec_inclusive_min(&self) -> T;

    fn inclusive_min(&self) -> (r: &T)
        ensures
            *r == self.spec_inclusive_min(),
    ;
}

/// The exclusive upper bound of an interval.
pub trait ExclusiveMax<T> {
    spec fn spec_exclusive_max(&self) -> T;

    fn exclusive_max(&self) -> (r: &T)
        ensures
            *r == self.spec_exclusive_max(),
    ;
}

/// Both bounds of a half-open interval.
pub trait Halfopen<T> {
    spec fn spec_halfopen_bounds(&self) -> (T, T);

    fn halfopen_bounds(&self) -> (r: (&T, &T))
        ensures
            (*r.0, *r.1) == self.spec_halfopen_bounds(),
    ;
}

impl<T> InclusiveMin<T> for Range<T> {
    open spec fn spec_inclusive_min(&self) -> T {
        self.start
    }

    fn inclusive_min(&self) -> (r: &T) {
        &self.start
    }
}

impl<T> ExclusiveMax<T> for Range<T> {
    open spec fn spec_exclusive_max(&self) -> T {
        self.end
    }

    fn exclusive_max(&self) -> (r: &T) {
        &self.end
    }
}

impl<T> Halfopen<T> for Range<T> {
    open spec fn spec_halfopen_bounds(&self) -> (T, T) {
        (self.start, self.end)
    }

    fn halfopen_bounds(&self) -> (r: (&T, &T)) {
        (self.inclusive_min(), self.exclusive_max())
    }
}

/// Pairwise algebra of half-open intervals.
pub trait Interval: Sized {
    /// Keys of the lower and upper bound.
    spec fn span(&self) -> (int, int);

    fn interval_intersection(&self, other: &Self) -> (r: Option<Self>)
        ensures
            r is Some <==> intersection_of(self.span(), other.span()) is Some,
            r is Some ==> intersection_of(self.span(), other.span()) == Some(r->0.span()),
    ;

    fn interval_union(&self, other: &Self) -> (r: Option<Self>)
        ensures
            r is Some <==> union_of(self.span(), other.span()) is Some,
            r is Some ==> union_of(self.span(), other.span()) == Some(r->0.span()),
    ;

    fn overlaps(&self, other: &Self) -> (r: bool)
        ensures
            r == overlaps_of(self.span(), other.span()),
    ;

    fn touches(&self, other: &Self) -> (r: bool)
        ensures
            r == touches_of(self.span(), other.span()),
    ;

    fn dominates(&self, other: &Self) -> (r: bool)
        ensures
            r == dominates_of(self.span(), other.span()),
    ;
}

impl<T: Domain> Interval for Range<T> {
    open spec fn span(&self) -> (int, int) {
        (self.start.key(), self.end.key())
    }

    fn interval_intersection(&self, other: &Self) -> (r: Option<Self>) {
        let (a, b) = if other.start.below(&self.start) {
            (other, self)
        } else {
            (self, other)
        };
        if a.end.at_most(&b.start) {
            None
        } else {
            let end = if a.end.at_most(&b.end) {
                a.end
            } else {
                b.end
            };
            Some(Range { start: b.start, end })
        }
    }

    fn interval_union(&self, other: &Self) -> (r: Option<Self>) {
        let (a, b) = if other.start.below(&self.start) {
            (other, self)
        } else {
            (self, other)
        };
        if a.end.below(&b.start) {
            None
        } else {
            let end = if b.end.at_most(&a.end) {
                a.end
            } else {
                b.end
            };
            Some(Range { start: a.start, end })
        }
    }

    fn overlaps(&self, other: &Self) -> (r: bool) {
        other.start.below(&self.end) && self.start.below(&other.end)
    }

    fn touches(&self, other: &Self) -> (r: bool) {
        other.start.at_most(&self.end) && self.start.at_most(&other.end)
    }

    fn dominates(&self, other: &Self) -> (r: bool) {
        self.start.at_most(&other.start) && other.end.at_most(&self.end)
    }
}

/// Whether either of two intervals covers the other.
pub trait IntervalExt: Interval {
    fn dominates_or_is_dominated_by(&self, other: &Self) -> (r: bool)
        ensures
            r == dominates_either_of(self.span(), other.span()),
    ;
}

impl<T: Domain> IntervalExt for Range<T> {
    /// Decided from the signs of the two bound differences, so no subtraction
    /// can overflow.
    fn dominates_or_is_dominated_by(&self, other: &Self) -> (r: bool) {
        let lower_equal = !self.start.below(&other.start) && !other.start.below(&self.start);
        let upper_equal = !self.end.below(&other.end) && !other.end.below(&self.end);
        let r = lower_equal || upper_equal || (self.start.below(&other.start) != self.end.below(
            &other.end,
        ));
        proof {
            let (a0, a1) = self.span();
            let (b0, b1) = other.span();
            if b0 == a0 || b1 == a1 {
                assert((b0 - a0) * (b1 - a1) == 0) by (nonlinear_arith)
                    requires
                        b0 == a0 || b1 == a1,
                ;
            }
            if b0 - a0 > 0 && b1 - a1 < 0 {
                assert((b0 - a0) * (b1 - a1) < 0) by (nonlinear_arith)
                    requires
                        b0 - a0 > 0,
                        b1 - a1 < 0,
                ;
            }
            if b0 - a0 < 0 && b1 - a1 > 0 {
                assert((b0 - a0) * (b1 - a1) < 0) by (nonlinear_arith)
                    requires
                        b0 - a0 < 0,
                        b1 - a1 > 0,
                ;
            }
            if b0 - a0 > 0 && b1 - a1 > 0 {
                assert((b0 - a0) * (b1 - a1) > 0) by (nonlinear_arith)
                    requires
                        b0 - a0 > 0,
                        b1 - a1 > 0,
                ;
            }
            if b0 - a0 < 0 && b1 - a1 < 0 {
                assert((b0 - a0) * (b1 - a1) > 0) by (nonlinear_arith)
                    requires
                        b0 - a0 < 0,
                        b1 - a1 < 0,
                ;
            }
        }
        r
    }
}

/// Overlap is symmetric.
pub proof fn lemma_overlaps_symmetric(a: (int, int), b: (int, int))
    ensures
        overlaps_of(a, b) == overlaps_of(b, a),
{
}

/// Touching is symmetric.
pub proof fn lemma_touches_symmetric(a: (int, int), b: (int, int))
    ensures
        touches_of(a, b) == touches_of(b, a),
{
}

} // verus!
