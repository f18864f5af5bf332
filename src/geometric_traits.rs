//! Geometric capabilities of positions: distances, neighbours and steps.
use crate::arraynd::ArrayNd;
use crate::linear_index::LinearIndex;
use crate::vector::Vector;
use vstd::prelude::*;

verus! {

/// A shape that can grow to cover objects of type `T`.
pub trait CoverObject<T> {
    fn cover(&mut self, object: &T);
}

/// Sum of absolute coordinate differences.
pub trait ManhattanDistance<T, O>: Sized {
    /// The distance can be computed without overflow.
    spec fn spec_manhattan_ok(&self, other: &Self) -> bool;

    spec fn spec_manhattan_distance(&self, other: &Self) -> O;

    fn manhattan_distance(&self, other: &Self) -> (r: O)
        requires
            self.spec_manhattan_ok(other),
        ensures
            r == self.spec_manhattan_distance(other),
    ;
}

/// Sum of squared coordinate differences.
pub trait EuclideanDistanceSquared<T, O>: Sized {
    /// The distance can be computed without overflow.
    spec fn spec_euclidean_ok(&self, other: &Self) -> bool;

    spec fn spec_euclidean_distance_squared(&self, other: &Self) -> O;

    fn euclidean_distance_squared(&self, other: &Self) -> (r: O)
        requires
            self.spec_euclidean_ok(other),
        ensures
            r == self.spec_euclidean_distance_squared(other),
    ;
}

/// What bounds the neighbours of a position.
pub trait IterateNeighboursContext {

}

impl IterateNeighboursContext for () {

}

impl<const C: usize, T> IterateNeighboursContext for ArrayNd<C, T> {

}

/// The positions one unit step away along a single axis.
pub trait IterateNeighbours<T: IterateNeighboursContext>: Sized {
    /// `n` is a neighbour of `self` within `context`.
    spec fn spec_is_neighbour(&self, context: &T, n: Self) -> bool;

    /// `r` lists every neighbour of `self` within `context`.
    spec fn spec_lists_all(&self, context: &T, r: Seq<Self>) -> bool;

    fn neighbours(&self, context: &T) -> (r: Vec<Self>)
        ensures
            forall|m: int| 0 <= m < r.len() ==> self.spec_is_neighbour(context, #[trigger] r@[m]),
            self.spec_lists_all(context, r@),
    ;
}

/// Sum of `|b[i] - a[i]|` over the first `k` components.
pub open spec fn manhattan_prefix(a: Seq<i32>, b: Seq<i32>, k: int) -> int
    decreases k,
{
    if k <= 0 {
        0
    } else {
        manhattan_prefix(a, b, k - 1) + if b[k - 1] >= a[k - 1] {
            b[k - 1] - a[k - 1]
        } else {
            a[k - 1] - b[k - 1]
        }
    }
}

/// Sum of `(b[i] - a[i])^2` over the first `k` components.
pub open spec fn euclidean_prefix(a: Seq<i32>, b: Seq<i32>, k: int) -> int
    decreases k,
{
    if k <= 0 {
        0
    } else {
        euclidean_prefix(a, b, k - 1) + (b[k - 1] - a[k - 1]) * (b[k - 1] - a[k - 1])
    }
}

impl<const C: usize> ManhattanDistance<Vector<C, i32>, i32> for Vector<C, i32> {
    /// Every difference, its absolute value and every partial sum fit in
    /// `i32`.
    open spec fn spec_manhattan_ok(&self, other: &Self) -> bool {
        &&& forall|i: int|
            0 <= i < C ==> i32::MIN < #[trigger] (other.values@[i] - self.values@[i]) <= i32::MAX
        &&& forall|k: int|
            0 <= k <= C ==> #[trigger] manhattan_prefix(self.values@, other.values@, k) <= i32::MAX
    }

    open spec fn spec_manhattan_distance(&self, other: &Self) -> i32 {
        manhattan_prefix(self.values@, other.values@, C as int) as i32
    }

    fn manhattan_distance(&self, other: &Self) -> (r: i32) {
        let mut result: i32 = 0;
        let mut i: usize = 0;
        proof {
            assert(manhattan_prefix(self.values@, other.values@, 0) == 0);
        }
        while i < C
            invariant
                i <= C,
                self.spec_manhattan_ok(other),
                result == manhattan_prefix(self.values@, other.values@, i as int),
                result >= 0,
            decreases C - i,
        {
            assert(i32::MIN < other.values@[i as int] - self.values@[i as int] <= i32::MAX);
            assert(manhattan_prefix(self.values@, other.values@, i + 1) <= i32::MAX);
            let delta = other.values[i] - self.values[i];
            let magnitude = if delta < 0 {
                -delta
            } else {
                delta
            };
            result = result + magnitude;
            i = i + 1;
        }
        result
    }
}

impl<const C: usize> EuclideanDistanceSquared<Vector<C, i32>, i32> for Vector<C, i32> {
    /// Every difference, its square and every partial sum fit in `i32`.
    open spec fn spec_euclidean_ok(&self, other: &Self) -> bool {
        &&& forall|i: int|
            0 <= i < C ==> i32::MIN <= #[trigger] (other.values@[i] - self.values@[i]) <= i32::MAX
        &&& forall|i: int|
            0 <= i < C ==> (other.values@[i] - self.values@[i]) * (other.values@[i]
                - self.values@[i]) <= i32::MAX
        &&& forall|k: int|
            0 <= k <= C ==> #[trigger] euclidean_prefix(self.values@, other.values@, k) <= i32::MAX
    }

    open spec fn spec_euclidean_distance_squared(&self, other: &Self) -> i32 {
        euclidean_prefix(self.values@, other.values@, C as int) as i32
    }

    fn euclidean_distance_squared(&self, other: &Self) -> (r: i32) {
        let mut result: i32 = 0;
        let mut i: usize = 0;
        while i < C
            invariant
                i <= C,
                self.spec_euclidean_ok(other),
                result == euclidean_prefix(self.values@, other.values@, i as int),
                result >= 0,
            decreases C - i,
        {
            let ghost d = other.values@[i as int] - self.values@[i as int];
            assert(i32::MIN <= d <= i32::MAX);
            assert(d * d <= i32::MAX);
            assert(d * d >= 0) by (nonlinear_arith);
            assert(euclidean_prefix(self.values@, other.values@, i + 1) <= i32::MAX);
            let delta = other.values[i] - self.values[i];
            result = result + delta * delta;
            i = i + 1;
        }
        result
    }
}

/// The components of `p` with the one on `axis` moved by `delta`.
pub open spec fn stepped<const C: usize>(p: Vector<C, i32>, axis: int, delta: int) -> Seq<i32> {
    p.values@.update(axis, (p.values@[axis] + delta) as i32)
}

/// `n` equals `p` but for one axis, where it is one more or one less.
pub open spec fn unit_step_of<const C: usize>(p: Vector<C, i32>, n: Vector<C, i32>) -> bool {
    exists|axis: int, delta: int|
        0 <= axis < C && (delta == 1 || delta == -1) && n.values@ == #[trigger] stepped(
            p,
            axis,
            delta,
        )
}

/// Every step of `p` by one along an axis below `upto` that stays within
/// `i32` appears in `r`.
pub open spec fn steps_listed<const C: usize>(
    p: Vector<C, i32>,
    r: Seq<Vector<C, i32>>,
    upto: int,
) -> bool {
    forall|axis: int, delta: int|
        #![trigger stepped(p, axis, delta)]
        0 <= axis < upto && (delta == 1 || delta == -1) && i32::MIN <= p.values@[axis] + delta
            <= i32::MAX ==> exists|m: int|
            0 <= m < r.len() && #[trigger] r[m].values@ == stepped(p, axis, delta)
}

impl<const C: usize> IterateNeighbours<()> for Vector<C, i32> {
    open spec fn spec_is_neighbour(&self, context: &(), n: Self) -> bool {
        unit_step_of(*self, n)
    }

    open spec fn spec_lists_all(&self, context: &(), r: Seq<Self>) -> bool {
        steps_listed(*self, r, C as int)
    }

    fn neighbours(&self, context: &()) -> (r: Vec<Self>) {
        let mut results: Vec<Self> = Vec::new();
        let mut i: usize = 0;
        while i < C
            invariant
                i <= C,
                forall|m: int| 0 <= m < results.len() ==> unit_step_of(*self, #[trigger] results@[m]),
                steps_listed(*self, results@, i as int),
            decreases C - i,
        {
            let ghost before = results@;
            if self.values[i] < i32::MAX {
                let mut b = *self;
                b.values[i] = self.values[i] + 1;
                proof {
                    assert(b.values@ =~= stepped(*self, i as int, 1));
                }
                results.push(b);
            }
            let ghost mid = results@;
            if self.values[i] > i32::MIN {
                let mut b = *self;
                b.values[i] = self.values[i] - 1;
                proof {
                    assert(b.values@ =~= stepped(*self, i as int, -1));
                }
                results.push(b);
            }
            proof {
                assert forall|axis: int, delta: int|
                    #![trigger stepped(*self, axis, delta)]
                    0 <= axis < i + 1 && (delta == 1 || delta == -1) && i32::MIN <= self.values@[axis]
                        + delta <= i32::MAX implies exists|m: int|
                    0 <= m < results@.len() && #[trigger] results@[m].values@ == stepped(
                        *self,
                        axis,
                        delta,
                    ) by {
                    if axis < i {
                        let m = choose|m: int|
                            0 <= m < before.len() && #[trigger] before[m].values@ == stepped(
                                *self,
                                axis,
                                delta,
                            );
                        assert(results@[m] == before[m]);
                    } else if delta == 1 {
                        assert(results@[before.len() as int] == mid[before.len() as int]);
                    } else {
                        assert(results@[mid.len() as int].values@ == stepped(*self, axis, delta));
                    }
                }
            }
            i = i + 1;
        }
        results
    }
}

/// Every component of `s` lies in `[0, dims[j])`.
pub open spec fn components_inside(s: Seq<i32>, dims: Seq<usize>) -> bool {
    forall|j: int| 0 <= j < dims.len() ==> 0 <= #[trigger] s[j] < dims[j]
}

impl<const C: usize, U> IterateNeighbours<ArrayNd<C, U>> for Vector<C, i32> {
    open spec fn spec_is_neighbour(&self, context: &ArrayNd<C, U>, n: Self) -> bool {
        unit_step_of(*self, n) && context.spec_in_bounds(n)
    }

    open spec fn spec_lists_all(&self, context: &ArrayNd<C, U>, r: Seq<Self>) -> bool {
        forall|axis: int, delta: int|
            #![trigger stepped(*self, axis, delta)]
            0 <= axis < C && (delta == 1 || delta == -1) && i32::MIN <= self.values@[axis] + delta
                <= i32::MAX && components_inside(stepped(*self, axis, delta), context.dims@)
                ==> exists|m: int|
                0 <= m < r.len() && #[trigger] r[m].values@ == stepped(*self, axis, delta)
    }

    /// The neighbours within `()` that lie inside the array.
    fn neighbours(&self, context: &ArrayNd<C, U>) -> (r: Vec<Self>) {
        let all = self.neighbours(&());
        let mut inside: Vec<Self> = Vec::new();
        let mut k: usize = 0;
        while k < all.len()
            invariant
                k <= all.len(),
                forall|m: int| 0 <= m < all.len() ==> unit_step_of(*self, #[trigger] all@[m]),
                forall|m: int|
                    0 <= m < inside.len() ==> unit_step_of(*self, #[trigger] inside@[m])
                        && context.spec_in_bounds(inside@[m]),
                forall|m: int|
                    0 <= m < k && context.spec_in_bounds(#[trigger] all@[m]) ==> exists|q: int|
                        0 <= q < inside.len() && inside@[q] == all@[m],
            decreases all.len() - k,
        {
            let ghost before = inside@;
            if context.is_in_bounds(&all[k]) {
                inside.push(all[k]);
                proof {
                    assert(inside@[before.len() as int] == all@[k as int]);
                }
            }
            proof {
                assert forall|m: int|
                    0 <= m < k + 1 && context.spec_in_bounds(#[trigger] all@[m]) implies exists|q: int|
                    0 <= q < inside.len() && inside@[q] == all@[m] by {
                    if m < k {
                        let q = choose|q: int| 0 <= q < before.len() && before[q] == all@[m];
                        assert(inside@[q] == before[q]);
                    } else {
                        assert(inside@[before.len() as int] == all@[m]);
                    }
                }
            }
            k = k + 1;
        }
        proof {
            assert forall|axis: int, delta: int|
                #![trigger stepped(*self, axis, delta)]
                0 <= axis < C && (delta == 1 || delta == -1) && i32::MIN <= self.values@[axis]
                    + delta <= i32::MAX && components_inside(stepped(*self, axis, delta), context.dims@)
                    implies exists|m: int|
                0 <= m < inside@.len() && #[trigger] inside@[m].values@ == stepped(
                    *self,
                    axis,
                    delta,
                ) by {
                let m = choose|m: int|
                    0 <= m < all@.len() && #[trigger] all@[m].values@ == stepped(*self, axis, delta);
                assert(context.spec_in_bounds(all@[m])) by {
                    assert forall|j: int| 0 <= j < C implies 0 <= #[trigger] all@[m].values@[j]
                        < context.dims@[j] by {
                        assert(all@[m].values@[j] == stepped(*self, axis, delta)[j]);
                    }
                }
                let q = choose|q: int| 0 <= q < inside.len() && inside@[q] == all@[m];
                assert(inside@[q].values@ == stepped(*self, axis, delta));
            }
        }
        inside
    }
}

/// Unit steps of a planar position in the four axis directions, within the
/// range of its coordinates.
pub trait Movement4Directions: Sized + Copy {
    spec fn spec_x(&self) -> int;

    spec fn spec_y(&self) -> int;

    /// Least coordinate value.
    spec fn spec_low() -> int;

    /// Greatest coordinate value.
    spec fn spec_high() -> int;

    proof fn lemma_in_range(&self)
        ensures
            Self::spec_low() <= self.spec_x() <= Self::spec_high(),
            Self::spec_low() <= self.spec_y() <= Self::spec_high(),
    ;

    /// One step right, or `None` where the coordinate would leave its range.
    fn step_right(&self) -> (r: Option<Self>)
        ensures
            r is Some <==> self.spec_x() + 1 <= Self::spec_high(),
            r is Some ==> r->0.spec_x() == self.spec_x() + 1 && r->0.spec_y()
                == self.spec_y(),
    ;

    /// One step up, or `None` where the coordinate would leave its range.
    fn step_up(&self) -> (r: Option<Self>)
        ensures
            r is Some <==> self.spec_y() + 1 <= Self::spec_high(),
            r is Some ==> r->0.spec_y() == self.spec_y() + 1 && r->0.spec_x()
                == self.spec_x(),
    ;

    /// One step left, or `None` where the coordinate would leave its range.
    fn step_left(&self) -> (r: Option<Self>)
        ensures
            r is Some <==> Self::spec_low() <= self.spec_x() - 1,
            r is Some ==> r->0.spec_x() == self.spec_x() - 1 && r->0.spec_y()
                == self.spec_y(),
    ;

    /// One step down, or `None` where the coordinate would leave its range.
    fn step_down(&self) -> (r: Option<Self>)
        ensures
            r is Some <==> Self::spec_low() <= self.spec_y() - 1,
            r is Some ==> r->0.spec_y() == self.spec_y() - 1 && r->0.spec_x()
                == self.spec_x(),
    ;

    /// `n` steps right, or `None` where the coordinate would leave its range.
    fn step_right_n(&self, n: usize) -> (r: Option<Self>)
        ensures
            r is Some <==> self.spec_x() + n <= Self::spec_high(),
            r is Some ==> r->0.spec_x() == self.spec_x() + n && r->0.spec_y()
                == self.spec_y(),
    {
        let mut result: Self = *self;
        let mut i: usize = 0;
        while i < n
            invariant
                i <= n,
                result.spec_x() == self.spec_x() + i,
                result.spec_y() == self.spec_y(),
            decreases n - i,
        {
            proof {
                result.lemma_in_range();
            }
            match result.step_right() {
                Some(next) => {
                    result = next;
                },
                None => {
                    return None;
                },
            }
            i = i + 1;
        }
        proof {
            result.lemma_in_range();
        }
        Some(result)
    }

    /// `n` steps up, or `None` where the coordinate would leave its range.
    fn step_up_n(&self, n: usize) -> (r: Option<Self>)
        ensures
            r is Some <==> self.spec_y() + n <= Self::spec_high(),
            r is Some ==> r->0.spec_y() == self.spec_y() + n && r->0.spec_x()
                == self.spec_x(),
    {
        let mut result: Self = *self;
        let mut i: usize = 0;
        while i < n
            invariant
                i <= n,
                result.spec_y() == self.spec_y() + i,
                result.spec_x() == self.spec_x(),
            decreases n - i,
        {
            proof {
                result.lemma_in_range();
            }
            match result.step_up() {
                Some(next) => {
                    result = next;
                },
                None => {
                    return None;
                },
            }
            i = i + 1;
        }
        proof {
            result.lemma_in_range();
        }
        Some(result)
    }

    /// `n` steps left, or `None` where the coordinate would leave its range.
    fn step_left_n(&self, n: usize) -> (r: Option<Self>)
        ensures
            r is Some <==> Self::spec_low() <= self.spec_x() - n,
            r is Some ==> r->0.spec_x() == self.spec_x() - n && r->0.spec_y()
                == self.spec_y(),
    {
        let mut result: Self = *self;
        let mut i: usize = 0;
        while i < n
            invariant
                i <= n,
                result.spec_x() == self.spec_x() - i,
                result.spec_y() == self.spec_y(),
            decreases n - i,
        {
            proof {
                result.lemma_in_range();
            }
            match result.step_left() {
                Some(next) => {
                    result = next;
                },
                None => {
                    return None;
                },
            }
            i = i + 1;
        }
        proof {
            result.lemma_in_range();
        }
        Some(result)
    }

    /// `n` steps down, or `None` where the coordinate would leave its range.
    fn step_down_n(&self, n: usize) -> (r: Option<Self>)
        ensures
            r is Some <==> Self::spec_low() <= self.spec_y() - n,
            r is Some ==> r->0.spec_y() == self.spec_y() - n && r->0.spec_x()
                == self.spec_x(),
    {
        let mut result: Self = *self;
        let mut i: usize = 0;
        while i < n
            invariant
                i <= n,
                result.spec_y() == self.spec_y() - i,
                result.spec_x() == self.spec_x(),
            decreases n - i,
        {
            proof {
                result.lemma_in_range();
            }
            match result.step_down() {
                Some(next) => {
                    result = next;
                },
                None => {
                    return None;
                },
            }
            i = i + 1;
        }
        proof {
            result.lemma_in_range();
        }
        Some(result)
    }
}

impl Movement4Directions for Vector<2, i32> {
    open spec fn spec_x(&self) -> int {
        self.values@[0] as int
    }

    open spec fn spec_y(&self) -> int {
        self.values@[1] as int
    }

    open spec fn spec_low() -> int {
        i32::MIN as int
    }

    open spec fn spec_high() -> int {
        i32::MAX as int
    }

    proof fn lemma_in_range(&self) {
        let x = self.values[0];
        let y = self.values[1];
        assert(self.values@[0] == x && self.values@[1] == y);
        assert(self.spec_x() == x as int);
        assert(Self::spec_low() <= x as int);
        assert(Self::spec_low() <= self.spec_x());
    }

    fn step_right(&self) -> (r: Option<Self>) {
        if self.values[0] < i32::MAX {
            Some(Vector::from_xy(self.values[0] + 1, self.values[1]))
        } else {
            None
        }
    }

    fn step_up(&self) -> (r: Option<Self>) {
        if self.values[1] < i32::MAX {
            Some(Vector::from_xy(self.values[0], self.values[1] + 1))
        } else {
            None
        }
    }

    fn step_left(&self) -> (r: Option<Self>) {
        if self.values[0] > i32::MIN {
            Some(Vector::from_xy(self.values[0] - 1, self.values[1]))
        } else {
            None
        }
    }

    fn step_down(&self) -> (r: Option<Self>) {
        if self.values[1] > i32::MIN {
            Some(Vector::from_xy(self.values[0], self.values[1] - 1))
        } else {
            None
        }
    }
}

impl Movement4Directions for Vector<2, usize> {
    open spec fn spec_x(&self) -> int {
        self.values@[0] as int
    }

    open spec fn spec_y(&self) -> int {
        self.values@[1] as int
    }

    open spec fn spec_low() -> int {
        0usize as int
    }

    open spec fn spec_high() -> int {
        usize::MAX as int
    }

    proof fn lemma_in_range(&self) {
        let x = self.values[0];
        let y = self.values[1];
        assert(self.values@[0] == x && self.values@[1] == y);
        assert(self.spec_x() == x as int);
        assert(Self::spec_low() <= x as int);
        assert(Self::spec_low() <= self.spec_x());
    }

    fn step_right(&self) -> (r: Option<Self>) {
        if self.values[0] < usize::MAX {
            Some(Vector::from_xy(self.values[0] + 1, self.values[1]))
        } else {
            None
        }
    }

    fn step_up(&self) -> (r: Option<Self>) {
        if self.values[1] < usize::MAX {
            Some(Vector::from_xy(self.values[0], self.values[1] + 1))
        } else {
            None
        }
    }

    fn step_left(&self) -> (r: Option<Self>) {
        if self.values[0] > 0usize {
            Some(Vector::from_xy(self.values[0] - 1, self.values[1]))
        } else {
            None
        }
    }

    fn step_down(&self) -> (r: Option<Self>) {
        if self.values[1] > 0usize {
            Some(Vector::from_xy(self.values[0], self.values[1] - 1))
        } else {
            None
        }
    }
}

} // verus!
