//! Conversion between multi-dimensional positions and linear indices.
use vstd::arithmetic::div_mod::{
    lemma_fundamental_div_mod, lemma_fundamental_div_mod_converse, lemma_mod_pos_bound,
};
use vstd::prelude::*;

verus! {

/// A shape whose positions of type `I` are numbered linearly.
pub trait LinearIndex<I> {
    /// The shape's extents are positive and its positions number at most
    /// `usize::MAX`.
    spec fn spec_shape_ok(&self) -> bool;

    spec fn spec_in_bounds(&self, i: I) -> bool;

    /// Linear index of a position in bounds.
    spec fn spec_linear(&self, i: I) -> int;

    /// Number of positions in the shape.
    spec fn spec_cardinality(&self) -> int;

    /// `i` is the position that the linear index `k` denotes.
    spec fn spec_is_unindex(&self, k: int, i: I) -> bool;

    fn index_unchecked(&self, i: I) -> (r: Option<usize>)
        requires
            self.spec_shape_ok(),
            self.spec_in_bounds(i),
        ensures
            r == Some(self.spec_linear(i) as usize),
            0 <= self.spec_linear(i) < self.spec_cardinality(),
            self.spec_cardinality() <= usize::MAX,
    ;

    /// Linear indices can be turned back into positions: every extent is
    /// positive.
    spec fn spec_unindex_ok(&self) -> bool;

    /// Whether the position that linear index `k` denotes can be held in `I`.
    spec fn spec_unindex_fits(&self, k: int) -> bool;

    fn unindex(&self, i: usize) -> (r: Option<I>)
        requires
            self.spec_unindex_ok(),
        ensures
            r is Some <==> self.spec_unindex_fits(i as int),
            r is Some ==> self.spec_is_unindex(i as int, r->0),
    ;

    fn is_in_bounds(&self, i: &I) -> (r: bool)
        ensures
            r == self.spec_in_bounds(*i),
    ;

    /// Linear index of `i`, or `None` where `i` lies outside the shape.
    fn index(&self, i: I) -> (r: Option<usize>)
        requires
            self.spec_shape_ok(),
        ensures
            r is Some <==> self.spec_in_bounds(i),
            r is Some ==> r->0 == self.spec_linear(i) && r->0 < self.spec_cardinality(),
    {
        if self.is_in_bounds(&i) {
            self.index_unchecked(i)
        } else {
            None
        }
    }
}

/// The coordinates of an `i32` vector as integers.
pub open spec fn ints_of_i32(s: Seq<i32>) -> Seq<int> {
    s.map_values(|v: i32| v as int)
}

/// The extents of a `usize` shape as integers.
pub open spec fn ints_of_usize(s: Seq<usize>) -> Seq<int> {
    s.map_values(|v: usize| v as int)
}

/// Linear index of position `p` in a shape with extents `d`, the first
/// coordinate varying fastest.
pub open spec fn linear_of(d: Seq<int>, p: Seq<int>) -> int
    decreases d.len(),
{
    if d.len() == 0 || p.len() == 0 {
        0
    } else {
        p[0] + d[0] * linear_of(d.drop_first(), p.drop_first())
    }
}

/// Number of positions in a shape with extents `d`.
pub open spec fn extent(d: Seq<int>) -> int
    decreases d.len(),
{
    if d.len() == 0 {
        1
    } else {
        d[0] * extent(d.drop_first())
    }
}

/// Coordinates of linear index `k` in a shape with extents `d`.
pub open spec fn coordinates_of(d: Seq<int>, k: int) -> Seq<int>
    decreases d.len(),
{
    if d.len() == 0 {
        Seq::empty()
    } else {
        seq![k % d[0]] + coordinates_of(d.drop_first(), k / d[0])
    }
}

/// A shape with positive extents.
pub open spec fn extents_positive(d: Seq<int>) -> bool {
    forall|j: int| 0 <= j < d.len() ==> #[trigger] d[j] > 0
}

pub proof fn lemma_extent_positive(d: Seq<int>)
    requires
        extents_positive(d),
    ensures
        extent(d) >= 1,
    decreases d.len(),
{
    if d.len() > 0 {
        let rest = d.drop_first();
        assert(extents_positive(rest)) by {
            assert forall|j: int| 0 <= j < rest.len() implies #[trigger] rest[j] > 0 by {
                assert(rest[j] == d[j + 1]);
            }
        }
        lemma_extent_positive(rest);
        assert(d[0] > 0);
        assert(d[0] * extent(rest) >= 1) by (nonlinear_arith)
            requires
                d[0] >= 1,
                extent(rest) >= 1,
        ;
    }
}

/// The extent of a suffix of the shape is at most the whole extent.
pub proof fn lemma_suffix_extent(d: Seq<int>, j: int)
    requires
        extents_positive(d),
        0 <= j <= d.len(),
    ensures
        1 <= extent(d.subrange(j, d.len() as int)) <= extent(d),
    decreases j,
{
    let n = d.len() as int;
    let tail = d.subrange(j, n);
    assert(extents_positive(tail)) by {
        assert forall|m: int| 0 <= m < tail.len() implies #[trigger] tail[m] > 0 by {
            assert(tail[m] == d[m + j]);
        }
    }
    lemma_extent_positive(tail);
    if j == 0 {
        assert(tail =~= d);
    } else {
        lemma_suffix_extent(d, j - 1);
        let longer = d.subrange(j - 1, n);
        assert(longer.drop_first() =~= tail);
        assert(d[j - 1] > 0);
        assert(longer[0] == d[j - 1]);
        assert(extent(tail) <= d[j - 1] * extent(tail)) by (nonlinear_arith)
            requires
                d[j - 1] >= 1,
                extent(tail) >= 1,
        ;
    }
}

pub proof fn lemma_coordinates_len(d: Seq<int>, k: int)
    ensures
        coordinates_of(d, k).len() == d.len(),
    decreases d.len(),
{
    if d.len() > 0 {
        lemma_coordinates_len(d.drop_first(), k / d[0]);
    }
}

/// Linear indices and coordinates are inverse: the coordinates of the index of
/// a position in bounds are that position.
pub proof fn lemma_coordinates_of_linear(d: Seq<int>, p: Seq<int>)
    requires
        d.len() == p.len(),
        forall|j: int| 0 <= j < d.len() ==> 0 <= #[trigger] p[j] < d[j],
    ensures
        coordinates_of(d, linear_of(d, p)) == p,
    decreases d.len(),
{
    if d.len() > 0 {
        let (d1, p1) = (d.drop_first(), p.drop_first());
        assert forall|j: int| 0 <= j < d1.len() implies 0 <= #[trigger] p1[j] < d1[j] by {
            assert(p1[j] == p[j + 1] && d1[j] == d[j + 1]);
        }
        lemma_coordinates_of_linear(d1, p1);
        let rest = linear_of(d1, p1);
        assert(0 <= p[0] < d[0]);
        assert(linear_of(d, p) == p[0] + d[0] * rest);
        assert(linear_of(d, p) == rest * d[0] + p[0]) by (nonlinear_arith)
            requires
                linear_of(d, p) == p[0] + d[0] * rest,
        ;
        lemma_fundamental_div_mod_converse(
            linear_of(d, p),
            d[0],
            rest,
            p[0] as int,
        );
        assert(coordinates_of(d, linear_of(d, p)) =~= p);
    } else {
        assert(coordinates_of(d, linear_of(d, p)) =~= p);
    }
}

/// The extent of a concatenation is the product of the extents.
pub proof fn lemma_extent_concat(a: Seq<int>, b: Seq<int>)
    ensures
        extent(a + b) == extent(a) * extent(b),
    decreases a.len(),
{
    if a.len() == 0 {
        assert(a + b =~= b);
    } else {
        assert((a + b).drop_first() =~= a.drop_first() + b);
        lemma_extent_concat(a.drop_first(), b);
        let (x, y, z) = (a[0], extent(a.drop_first()), extent(b));
        assert(x * (y * z) == (x * y) * z) by (nonlinear_arith);
    }
}

/// Extending a shape by one extent multiplies its size by that extent.
pub proof fn lemma_extent_push(a: Seq<int>, x: int)
    ensures
        extent(a.push(x)) == extent(a) * x,
{
    lemma_extent_concat(a, seq![x]);
    assert(a + seq![x] =~= a.push(x));
    assert(seq![x].drop_first() =~= Seq::<int>::empty());
    assert(extent(Seq::<int>::empty()) == 1);
    assert(extent(seq![x]) == x * 1);
}

/// A prefix of a shape with positive extents is no larger than the shape.
pub proof fn lemma_prefix_extent(d: Seq<int>, i: int)
    requires
        extents_positive(d),
        0 <= i <= d.len(),
    ensures
        1 <= extent(d.subrange(0, i)) <= extent(d),
{
    let (pre, suf) = (d.subrange(0, i), d.subrange(i, d.len() as int));
    assert(pre + suf =~= d);
    lemma_extent_concat(pre, suf);
    assert(extents_positive(pre)) by {
        assert forall|m: int| 0 <= m < pre.len() implies #[trigger] pre[m] > 0 by {
            assert(pre[m] == d[m]);
        }
    }
    lemma_extent_positive(pre);
    lemma_suffix_extent(d, i);
    let (x, y) = (extent(pre), extent(suf));
    assert(x <= x * y) by (nonlinear_arith)
        requires
            x >= 1,
            y >= 1,
    ;
}

/// Every coordinate of an index below the shape's size lies within its axis.
pub proof fn lemma_coordinates_bounded(d: Seq<int>, k: int)
    requires
        extents_positive(d),
        0 <= k < extent(d),
    ensures
        coordinates_of(d, k).len() == d.len(),
        forall|j: int| 0 <= j < d.len() ==> 0 <= #[trigger] coordinates_of(d, k)[j] < d[j],
    decreases d.len(),
{
    lemma_coordinates_len(d, k);
    if d.len() > 0 {
        let rest = d.drop_first();
        assert(extents_positive(rest)) by {
            assert forall|m: int| 0 <= m < rest.len() implies #[trigger] rest[m] > 0 by {
                assert(rest[m] == d[m + 1]);
            }
        }
        assert(d[0] > 0);
        lemma_extent_positive(rest);
        let q = k / d[0];
        lemma_mod_pos_bound(k, d[0]);
        lemma_fundamental_div_mod(k, d[0]);
        assert(q < extent(rest)) by (nonlinear_arith)
            requires
                k == d[0] * q + k % d[0],
                0 <= k % d[0],
                k < d[0] * extent(rest),
                d[0] > 0,
        ;
        assert(q >= 0) by (nonlinear_arith)
            requires
                k == d[0] * q + k % d[0],
                k % d[0] < d[0],
                k >= 0,
                d[0] > 0,
        ;
        lemma_coordinates_bounded(rest, q);
        let c = coordinates_of(d, k);
        assert forall|j: int| 0 <= j < d.len() implies 0 <= #[trigger] c[j] < d[j] by {
            if j > 0 {
                assert(c[j] == coordinates_of(rest, q)[j - 1]);
                assert(rest[j - 1] == d[j]);
            }
        }
    }
}

/// Coordinates and linear indices are inverse the other way too: the linear
/// index of the coordinates of an index below the shape's size is that index.
pub proof fn lemma_linear_of_coordinates(d: Seq<int>, k: int)
    requires
        extents_positive(d),
        0 <= k < extent(d),
    ensures
        linear_of(d, coordinates_of(d, k)) == k,
    decreases d.len(),
{
    if d.len() > 0 {
        let rest = d.drop_first();
        assert(extents_positive(rest)) by {
            assert forall|m: int| 0 <= m < rest.len() implies #[trigger] rest[m] > 0 by {
                assert(rest[m] == d[m + 1]);
            }
        }
        assert(d[0] > 0);
        lemma_extent_positive(rest);
        let q = k / d[0];
        lemma_mod_pos_bound(k, d[0]);
        lemma_fundamental_div_mod(k, d[0]);
        assert(0 <= q < extent(rest)) by (nonlinear_arith)
            requires
                k == d[0] * q + k % d[0],
                0 <= k % d[0] < d[0],
                0 <= k < d[0] * extent(rest),
                d[0] > 0,
        ;
        lemma_linear_of_coordinates(rest, q);
        let c = coordinates_of(d, k);
        assert(c.drop_first() =~= coordinates_of(rest, q));
        lemma_coordinates_len(d, k);
    }
}

} // verus!
