//! Dense N-dimensional arrays stored in one vector, the first coordinate
//! varying fastest.
use crate::linear_index::{
    coordinates_of, extent, extents_positive, ints_of_i32, ints_of_usize, lemma_coordinates_len,
    lemma_coordinates_bounded, lemma_coordinates_of_linear, lemma_extent_push,
    lemma_linear_of_coordinates, lemma_prefix_extent, lemma_suffix_extent, linear_of, LinearIndex,
};
use crate::vector::{is_difference, Vector};
use vstd::prelude::*;
use vstd::std_specs::cmp::PartialEqSpec;

verus! {

/// An N-dimensional array: `data` holds the cells, `dims` the extents and
/// `dim_strides` the distance in `data` between neighbours along each axis.
#[derive(Clone, Debug)]
pub struct ArrayNd<const N: usize, T> {
    pub data: Vec<T>,
    pub dims: [usize; N],
    pub dim_strides: [usize; N],
}

pub type Array2d<T> = ArrayNd<2, T>;

pub type Array3d<T> = ArrayNd<3, T>;

pub type CharArray2d = Array2d<char>;

/// The strides of a shape: along axis `i`, the product of the extents before it.
pub open spec fn strides_of(dims: Seq<int>, strides: Seq<usize>) -> bool {
    &&& strides.len() == dims.len()
    &&& forall|i: int| 0 <= i < dims.len() ==> #[trigger] strides[i] == extent(dims.subrange(0, i))
}

impl<const N: usize, T> ArrayNd<N, T> {
    /// One cell per position, and strides that match the extents.
    pub open spec fn wf(&self) -> bool {
        &&& self.data.len() == extent(ints_of_usize(self.dims@))
        &&& strides_of(ints_of_usize(self.dims@), self.dim_strides@)
    }

    pub fn get_linear(&self, index: usize) -> (r: &T)
        requires
            index < self.data.len(),
        ensures
            *r == self.data@[index as int],
    {
        &self.data[index]
    }

    pub fn get_mut_linear(&mut self, index: usize) -> (r: &mut T)
        requires
            index < old(self).data.len(),
        ensures
            *r == old(self).data@[index as int],
            final(self).data@ == old(self).data@.update(index as int, *final(r)),
            final(self).dims == old(self).dims,
            final(self).dim_strides == old(self).dim_strides,
    {
        &mut self.data[index]
    }

    pub fn set_linear(&mut self, index: usize, v: T)
        requires
            index < old(self).data.len(),
        ensures
            final(self).data@ == old(self).data@.update(index as int, v),
            final(self).dims == old(self).dims,
            final(self).dim_strides == old(self).dim_strides,
    {
        *self.get_mut_linear(index) = v;
    }
}

/// Strides of `dims` with their product; every extent must be positive and
/// the product must fit in `usize`.
fn strides_and_size<const C: usize>(dims: &[usize; C]) -> (r: ([usize; C], usize))
    requires
        extents_positive(ints_of_usize(dims@)),
        extent(ints_of_usize(dims@)) <= usize::MAX,
    ensures
        strides_of(ints_of_usize(dims@), r.0@),
        r.1 == extent(ints_of_usize(dims@)),
{
    let ghost d = ints_of_usize(dims@);
    let mut dim_strides = [0usize; C];
    let mut current_stride: usize = 1;
    let mut i: usize = 0;
    proof {
        assert(d.subrange(0, 0) =~= Seq::<int>::empty());
    }
    while i < C
        invariant
            i <= C,
            d == ints_of_usize(dims@),
            extents_positive(d),
            extent(d) <= usize::MAX,
            current_stride == extent(d.subrange(0, i as int)),
            forall|k: int| 0 <= k < i ==> #[trigger] dim_strides@[k] == extent(d.subrange(0, k)),
        decreases C - i,
    {
        dim_strides[i] = current_stride;
        proof {
            assert(d.subrange(0, i + 1) =~= d.subrange(0, i as int).push(d[i as int]));
            lemma_extent_push(d.subrange(0, i as int), d[i as int]);
            lemma_prefix_extent(d, i + 1);
        }
        current_stride = current_stride * dims[i];
        i = i + 1;
    }
    proof {
        assert(d.subrange(0, C as int) =~= d);
    }
    (dim_strides, current_stride)
}

/// `count` copies of `value`.
fn repeated<T: Copy>(value: T, count: usize) -> (r: Vec<T>)
    ensures
        r@.len() == count,
        forall|k: int| 0 <= k < count ==> #[trigger] r@[k] == value,
{
    let mut data: Vec<T> = Vec::new();
    let mut k: usize = 0;
    while k < count
        invariant
            k <= count,
            data@.len() == k,
            forall|m: int| 0 <= m < k ==> #[trigger] data@[m] == value,
        decreases count - k,
    {
        data.push(value);
        k = k + 1;
    }
    data
}

impl<const C: usize, T: Copy> ArrayNd<C, T> {
    /// An array of the given extents, every cell holding `default`. Every
    /// extent must be positive and the number of cells must fit in `usize`.
    pub fn new(dims: [usize; C], default: T) -> (r: Self)
        requires
            extents_positive(ints_of_usize(dims@)),
            extent(ints_of_usize(dims@)) <= usize::MAX,
        ensures
            r.wf(),
            r.dims == dims,
            forall|k: int| 0 <= k < r.data.len() ==> #[trigger] r.data@[k] == default,
    {
        let (dim_strides, size) = strides_and_size(&dims);
        ArrayNd { data: repeated(default, size), dims, dim_strides }
    }

    /// An array of the given extents over a copy of `slice`, which holds one
    /// item per cell.
    pub fn from_slice(dims: [usize; C], slice: &[T]) -> (r: Self)
        requires
            extents_positive(ints_of_usize(dims@)),
            extent(ints_of_usize(dims@)) <= usize::MAX,
            slice@.len() == extent(ints_of_usize(dims@)),
        ensures
            r.wf(),
            r.dims == dims,
            r.data@ == slice@,
    {
        let (dim_strides, size) = strides_and_size(&dims);
        let mut data: Vec<T> = Vec::new();
        let mut k: usize = 0;
        while k < slice.len()
            invariant
                k <= slice@.len(),
                data@ == slice@.subrange(0, k as int),
            decreases slice@.len() - k,
        {
            data.push(slice[k]);
            proof {
                assert(data@ =~= slice@.subrange(0, k + 1));
            }
            k = k + 1;
        }
        proof {
            assert(slice@.subrange(0, slice@.len() as int) =~= slice@);
        }
        ArrayNd { data, dims, dim_strides }
    }
}

impl<T> Array2d<T> {
    pub fn width(&self) -> (r: usize)
        ensures
            r == self.dims@[0],
    {
        self.dims[0]
    }

    pub fn height(&self) -> (r: usize)
        ensures
            r == self.dims@[1],
    {
        self.dims[1]
    }
}

impl<T> Array3d<T> {
    pub fn width(&self) -> (r: usize)
        ensures
            r == self.dims@[0],
    {
        self.dims[0]
    }

    pub fn height(&self) -> (r: usize)
        ensures
            r == self.dims@[1],
    {
        self.dims[1]
    }

    pub fn depth(&self) -> (r: usize)
        ensures
            r == self.dims@[2],
    {
        self.dims[2]
    }
}

/// The extents and leading prefixes of shapes with two and three axes.
proof fn lemma_small_extents(a: usize, b: usize, c: usize)
    ensures
        extent(ints_of_usize(seq![a, b])) == a * b,
        extent(ints_of_usize(seq![a, b, c])) == a * (b * c),
        extent(ints_of_usize(seq![a, b]).subrange(0, 0)) == 1,
        extent(ints_of_usize(seq![a, b]).subrange(0, 1)) == a,
        extent(ints_of_usize(seq![a, b, c]).subrange(0, 0)) == 1,
        extent(ints_of_usize(seq![a, b, c]).subrange(0, 1)) == a,
        extent(ints_of_usize(seq![a, b, c]).subrange(0, 2)) == a * b,
{
    reveal_with_fuel(extent, 4);
    let d2 = ints_of_usize(seq![a, b]);
    let d3 = ints_of_usize(seq![a, b, c]);
    assert(d2 =~= seq![a as int, b as int]);
    assert(d3 =~= seq![a as int, b as int, c as int]);
    assert(d2.subrange(0, 0) =~= Seq::<int>::empty());
    assert(d2.subrange(0, 1) =~= seq![a as int]);
    assert(d3.subrange(0, 0) =~= Seq::<int>::empty());
    assert(d3.subrange(0, 1) =~= seq![a as int]);
    assert(d3.subrange(0, 2) =~= seq![a as int, b as int]);
    assert(seq![a as int].drop_first() =~= Seq::<int>::empty());
    assert(seq![a as int, b as int].drop_first() =~= seq![b as int]);
    assert(seq![b as int].drop_first() =~= Seq::<int>::empty());
    assert(seq![a as int, b as int, c as int].drop_first() =~= seq![b as int, c as int]);
    assert(seq![b as int, c as int].drop_first() =~= seq![c as int]);
    assert(seq![c as int].drop_first() =~= Seq::<int>::empty());
}

impl<T: Copy> Array2d<T> {
    /// A `width` by `height` array, every cell holding `default`.
    pub fn with_dimensions(width: usize, height: usize, default: T) -> (r: Self)
        requires
            width * height <= usize::MAX,
        ensures
            r.wf(),
            r.dims@ == seq![width, height],
            forall|k: int| 0 <= k < r.data.len() ==> #[trigger] r.data@[k] == default,
    {
        let r = ArrayNd {
            data: repeated(default, width * height),
            dims: [width, height],
            dim_strides: [1, width],
        };
        proof {
            lemma_small_extents(width, height, 0);
            assert(r.dims@ =~= seq![width, height]);
        }
        r
    }

    /// Drops the first `n` rows and appends `n` rows of `default`.
    pub fn shift_n_rows_down(&mut self, n: usize, default: T)
        requires
            old(self).dims@[0] * n <= old(self).data.len(),
        ensures
            final(self).data@ == old(self).data@.subrange(
                old(self).dims@[0] * n,
                old(self).data@.len() as int,
            ) + Seq::new((old(self).dims@[0] * n) as nat, |k: int| default),
            final(self).dims == old(self).dims,
            final(self).dim_strides == old(self).dim_strides,
    {
        let shift = self.width() * n;
        let mut data: Vec<T> = Vec::new();
        let mut k: usize = shift;
        while k < self.data.len()
            invariant
                shift <= k <= self.data.len(),
                data@ == self.data@.subrange(shift as int, k as int),
            decreases self.data.len() - k,
        {
            data.push(self.data[k]);
            proof {
                assert(data@ =~= self.data@.subrange(shift as int, k + 1));
            }
            k = k + 1;
        }
        let ghost kept = data@;
        let mut m: usize = 0;
        while m < shift
            invariant
                m <= shift,
                data@ == kept + Seq::new(m as nat, |k: int| default),
            decreases shift - m,
        {
            data.push(default);
            proof {
                assert(data@ =~= kept + Seq::new((m + 1) as nat, |k: int| default));
            }
            m = m + 1;
        }
        self.data = data;
    }
}

impl<T: Copy> Array3d<T> {
    /// A `width` by `height` by `depth` array, every cell holding `default`.
    pub fn with_dimensions(width: usize, height: usize, depth: usize, default: T) -> (r: Self)
        requires
            width * height <= usize::MAX,
            width * height * depth <= usize::MAX,
        ensures
            r.wf(),
            r.dims@ == seq![width, height, depth],
            forall|k: int| 0 <= k < r.data.len() ==> #[trigger] r.data@[k] == default,
    {
        let plane = width * height;
        let r = ArrayNd {
            data: repeated(default, plane * depth),
            dims: [width, height, depth],
            dim_strides: [1, width, plane],
        };
        proof {
            lemma_small_extents(width, height, depth);
            assert(r.dims@ =~= seq![width, height, depth]);
            assert(width * (height * depth) == width * height * depth) by (nonlinear_arith);
        }
        r
    }
}

impl<const N: usize, T> LinearIndex<Vector<N, i32>> for ArrayNd<N, T> {
    open spec fn spec_shape_ok(&self) -> bool {
        extent(ints_of_usize(self.dims@)) <= usize::MAX
    }

    open spec fn spec_in_bounds(&self, i: Vector<N, i32>) -> bool {
        forall|j: int| 0 <= j < N ==> 0 <= #[trigger] i.values@[j] < self.dims@[j]
    }

    open spec fn spec_linear(&self, i: Vector<N, i32>) -> int {
        linear_of(ints_of_usize(self.dims@), ints_of_i32(i.values@))
    }

    open spec fn spec_cardinality(&self) -> int {
        extent(ints_of_usize(self.dims@))
    }

    open spec fn spec_unindex_ok(&self) -> bool {
        extents_positive(ints_of_usize(self.dims@))
    }

    open spec fn spec_unindex_fits(&self, k: int) -> bool {
        forall|j: int|
            0 <= j < N ==> #[trigger] coordinates_of(ints_of_usize(self.dims@), k)[j] <= i32::MAX
    }

    open spec fn spec_is_unindex(&self, k: int, i: Vector<N, i32>) -> bool {
        forall|j: int|
            0 <= j < N ==> #[trigger] i.values@[j] == coordinates_of(ints_of_usize(self.dims@), k)[j]
    }

    fn index_unchecked(&self, i: Vector<N, i32>) -> (r: Option<usize>) {
        let ghost d = ints_of_usize(self.dims@);
        let ghost p = ints_of_i32(i.values@);
        proof {
            assert(extents_positive(d)) by {
                assert forall|j: int| 0 <= j < d.len() implies #[trigger] d[j] > 0 by {
                    assert(0 <= i.values@[j] < self.dims@[j]);
                }
            }
            assert(d.subrange(N as int, N as int) =~= Seq::<int>::empty());
            assert(p.subrange(N as int, N as int) =~= Seq::<int>::empty());
        }
        let mut result: usize = 0;
        let mut j: usize = N;
        while j > 0
            invariant
                j <= N,
                d == ints_of_usize(self.dims@),
                p == ints_of_i32(i.values@),
                extents_positive(d),
                extent(d) <= usize::MAX,
                self.spec_in_bounds(i),
                result == linear_of(d.subrange(j as int, N as int), p.subrange(j as int, N as int)),
                0 <= result < extent(d.subrange(j as int, N as int)),
            decreases j,
        {
            let ghost k = (j - 1) as int;
            proof {
                let dt = d.subrange(k, N as int);
                let pt = p.subrange(k, N as int);
                assert(dt.drop_first() =~= d.subrange(j as int, N as int));
                assert(pt.drop_first() =~= p.subrange(j as int, N as int));
                assert(dt[0] == d[k] && pt[0] == p[k]);
                assert(0 <= p[k] < d[k]);
                lemma_suffix_extent(d, k);
                let e = extent(d.subrange(j as int, N as int));
                assert(result * d[k] + p[k] < d[k] * e) by (nonlinear_arith)
                    requires
                        0 <= result < e,
                        0 <= p[k] < d[k],
                ;
                assert(result * d[k] + p[k] == p[k] + d[k] * result) by (nonlinear_arith);
            }
            j = j - 1;
            result = result * self.dims[j];
            let b = i.values[j] as usize;
            result = result + b;
        }
        proof {
            assert(d.subrange(0, N as int) =~= d);
            assert(p.subrange(0, N as int) =~= p);
        }
        Some(result)
    }

    fn unindex(&self, i: usize) -> (r: Option<Vector<N, i32>>) {
        let ghost d = ints_of_usize(self.dims@);
        let mut coords = [0usize; N];
        let mut rest = i;
        let mut j: usize = 0;
        proof {
            assert(d.subrange(0, N as int) =~= d);
            lemma_coordinates_len(d, i as int);
        }
        while j < N
            invariant
                j <= N,
                d == ints_of_usize(self.dims@),
                extents_positive(d),
                coordinates_of(d, i as int).len() == N,
                coordinates_of(d, i as int).subrange(j as int, N as int) == coordinates_of(
                    d.subrange(j as int, N as int),
                    rest as int,
                ),
                forall|m: int| 0 <= m < j ==> #[trigger] coords@[m] == coordinates_of(d, i as int)[m],
            decreases N - j,
        {
            let ghost dt = d.subrange(j as int, N as int);
            proof {
                assert(dt.drop_first() =~= d.subrange(j + 1, N as int));
                assert(dt[0] == d[j as int]);
                assert(d[j as int] > 0);
                let c = coordinates_of(d, i as int);
                assert(c.subrange(j + 1, N as int) =~= c.subrange(j as int, N as int).drop_first());
                assert(c[j as int] == c.subrange(j as int, N as int)[0]);
            }
            coords[j] = rest % self.dims[j];
            rest = rest / self.dims[j];
            j = j + 1;
        }
        let mut result = Vector { values: [0i32; N] };
        let mut m: usize = 0;
        while m < N
            invariant
                m <= N,
                forall|q: int| 0 <= q < N ==> #[trigger] coords@[q] == coordinates_of(d, i as int)[q],
                d == ints_of_usize(self.dims@),
                forall|q: int| 0 <= q < m ==> #[trigger] result.values@[q] == coords@[q],
                forall|q: int| 0 <= q < m ==> #[trigger] coords@[q] <= i32::MAX,
            decreases N - m,
        {
            if coords[m] > i32::MAX as usize {
                proof {
                    assert(coordinates_of(d, i as int)[m as int] > i32::MAX);
                }
                return None;
            }
            result.values[m] = coords[m] as i32;
            m = m + 1;
        }
        proof {
            assert forall|j: int| 0 <= j < N implies #[trigger] coordinates_of(d, i as int)[j]
                <= i32::MAX by {
                assert(coords@[j] <= i32::MAX);
            }
        }
        Some(result)
    }

    fn is_in_bounds(&self, i: &Vector<N, i32>) -> (r: bool) {
        let mut j: usize = 0;
        while j < N
            invariant
                j <= N,
                forall|m: int| 0 <= m < j ==> 0 <= #[trigger] i.values@[m] < self.dims@[m],
            decreases N - j,
        {
            if i.values[j] < 0 || i.values[j] as usize >= self.dims[j] {
                return false;
            }
            j = j + 1;
        }
        true
    }
}

impl<const N: usize, T> ArrayNd<N, T> {
    /// The cell at position `p`, or `None` outside the array.
    pub fn get(&self, p: Vector<N, i32>) -> (r: Option<&T>)
        requires
            self.wf(),
        ensures
            r is Some <==> self.spec_in_bounds(p),
            r is Some ==> *r->0 == self.data@[self.spec_linear(p)],
    {
        match self.index(p) {
            Some(index) => Some(self.get_linear(index)),
            None => None,
        }
    }

    /// The cell at position `p` for writing, or `None` outside the array.
    pub fn get_mut(&mut self, p: Vector<N, i32>) -> (r: Option<&mut T>)
        requires
            old(self).wf(),
        ensures
            r is Some <==> old(self).spec_in_bounds(p),
            r is Some ==> *r->0 == old(self).data@[old(self).spec_linear(p)] && final(self).data@
                == old(self).data@.update(old(self).spec_linear(p), *final(r->0)),
            r is None ==> final(self).data@ == old(self).data@,
            final(self).dims == old(self).dims,
            final(self).dim_strides == old(self).dim_strides,
    {
        match self.index(p) {
            Some(index) => Some(self.get_mut_linear(index)),
            None => None,
        }
    }

    /// Stores `v` at position `p`; returns whether `p` lies in the array,
    /// changing nothing where it does not.
    pub fn set(&mut self, p: Vector<N, i32>, v: T) -> (r: bool)
        requires
            old(self).wf(),
        ensures
            r == old(self).spec_in_bounds(p),
            r ==> final(self).data@ == old(self).data@.update(old(self).spec_linear(p), v),
            !r ==> final(self).data@ == old(self).data@,
            final(self).dims == old(self).dims,
            final(self).dim_strides == old(self).dim_strides,
    {
        match self.get_mut(p) {
            Some(a) => {
                *a = v;
                true
            },
            None => false,
        }
    }
}

impl<const N: usize, T: PartialEq> ArrayNd<N, T> {
    /// Position of the first cell equal to `item`. `None` when no cell is, or
    /// when the first such position has a coordinate beyond `i32`.
    pub fn find_item(&self, item: &T) -> (r: Option<Vector<N, i32>>)
        requires
            self.wf(),
            extents_positive(ints_of_usize(self.dims@)),
            T::obeys_eq_spec(),
        ensures
            r is Some ==> exists|k: int|
                0 <= k < self.data.len() && self.data@[k].eq_spec(item) && (forall|m: int|
                    0 <= m < k ==> !#[trigger] self.data@[m].eq_spec(item))
                    && #[trigger] self.spec_is_unindex(k, r->0),
            r is None ==> forall|k: int|
                0 <= k < self.data.len() && #[trigger] self.data@[k].eq_spec(item) ==> (exists|m: int|
                    0 <= m < k && #[trigger] self.data@[m].eq_spec(item))
                    || !self.spec_unindex_fits(k),
    {
        let mut k: usize = 0;
        while k < self.data.len()
            invariant
                k <= self.data.len(),
                T::obeys_eq_spec(),
                self.spec_unindex_ok(),
                forall|m: int| 0 <= m < k ==> !#[trigger] self.data@[m].eq_spec(item),
            decreases self.data.len() - k,
        {
            if self.data[k] == *item {
                return self.unindex(k);
            }
            k = k + 1;
        }
        None
    }

    /// Position of the last cell equal to `item`. `None` when no cell is, or
    /// when the last such position has a coordinate beyond `i32`.
    pub fn find_last_item(&self, item: &T) -> (r: Option<Vector<N, i32>>)
        requires
            self.wf(),
            extents_positive(ints_of_usize(self.dims@)),
            T::obeys_eq_spec(),
        ensures
            r is Some ==> exists|k: int|
                0 <= k < self.data.len() && self.data@[k].eq_spec(item) && (forall|m: int|
                    k < m < self.data.len() ==> !#[trigger] self.data@[m].eq_spec(item))
                    && #[trigger] self.spec_is_unindex(k, r->0),
            r is None ==> forall|k: int|
                0 <= k < self.data.len() && #[trigger] self.data@[k].eq_spec(item) ==> (exists|m: int|
                    k < m < self.data.len() && #[trigger] self.data@[m].eq_spec(item))
                    || !self.spec_unindex_fits(k),
    {
        let mut k: usize = self.data.len();
        while k > 0
            invariant
                k <= self.data.len(),
                T::obeys_eq_spec(),
                self.spec_unindex_ok(),
                forall|m: int| k <= m < self.data.len() ==> !#[trigger] self.data@[m].eq_spec(item),
            decreases k,
        {
            if self.data[k - 1] == *item {
                return self.unindex(k - 1);
            }
            k = k - 1;
        }
        None
    }
}

impl<const N: usize, T: Copy + PartialEq> ArrayNd<N, T> {
    /// Replaces every cell equal to `from` by `to`.
    pub fn replace_all(&mut self, from: &T, to: &T)
        requires
            T::obeys_eq_spec(),
        ensures
            final(self).data@.len() == old(self).data@.len(),
            forall|k: int|
                0 <= k < old(self).data@.len() ==> #[trigger] final(self).data@[k] == if old(
                    self,
                ).data@[k].eq_spec(from) {
                    *to
                } else {
                    old(self).data@[k]
                },
            final(self).dims == old(self).dims,
            final(self).dim_strides == old(self).dim_strides,
    {
        let ghost before = self.data@;
        let mut k: usize = 0;
        while k < self.data.len()
            invariant
                k <= self.data.len(),
                self.data@.len() == before.len(),
                T::obeys_eq_spec(),
                self.dims == old(self).dims,
                self.dim_strides == old(self).dim_strides,
                before == old(self).data@,
                forall|m: int| k <= m < before.len() ==> #[trigger] self.data@[m] == before[m],
                forall|m: int|
                    0 <= m < k ==> #[trigger] self.data@[m] == if before[m].eq_spec(from) {
                        *to
                    } else {
                        before[m]
                    },
            decreases self.data.len() - k,
        {
            if self.data[k] == *from {
                self.data[k] = *to;
            }
            k = k + 1;
        }
    }
}

impl<const N: usize, T> ArrayNd<N, T> {
    /// An array of the same shape holding `f` of each cell.
    pub fn map<F: Fn(&T) -> U, U>(&self, f: F) -> (r: ArrayNd<N, U>)
        requires
            forall|k: int| 0 <= k < self.data.len() ==> f.requires((&self.data@[k],)),
        ensures
            r.dims == self.dims,
            r.dim_strides == self.dim_strides,
            r.data.len() == self.data.len(),
            forall|k: int|
                0 <= k < self.data.len() ==> f.ensures((&self.data@[k],), #[trigger] r.data@[k]),
    {
        let mut data: Vec<U> = Vec::new();
        let mut k: usize = 0;
        while k < self.data.len()
            invariant
                k <= self.data.len(),
                data.len() == k,
                forall|m: int| 0 <= m < self.data.len() ==> f.requires((&self.data@[m],)),
                forall|m: int| 0 <= m < k ==> f.ensures((&self.data@[m],), #[trigger] data@[m]),
            decreases self.data.len() - k,
        {
            data.push(f(&self.data[k]));
            k = k + 1;
        }
        ArrayNd { data, dims: self.dims, dim_strides: self.dim_strides }
    }
}

/// Why text could not be read as a character grid.
#[derive(Debug, PartialEq, Eq)]
pub enum CharArrayParseError {
    /// `InconsistentLineWidth(l1, w1, l2, w2)`: line `l1` set the width `w1`,
    /// but line `l2` is `w2` characters long. Lines are numbered from zero.
    InconsistentLineWidth(usize, usize, usize, usize),
}

/// State of reading grid lines in order: the width so far, the line that set
/// it, the number of rows and the cells; or the first width conflict.
pub open spec fn read_grid(lines: Seq<Seq<char>>) -> Result<
    (int, int, int, Seq<char>),
    (int, int, int, int),
>
    decreases lines.len(),
{
    if lines.len() == 0 {
        Ok((0, 0, 0, Seq::empty()))
    } else {
        let n = lines.len() - 1;
        let line = lines[n];
        match read_grid(lines.drop_last()) {
            Err(e) => Err(e),
            Ok((w, wl, h, cells)) => {
                // the first line sets the width, and so does each line while
                // the width is still zero; other non-empty lines must match it
                if w != 0 && line.len() != w && line.len() != 0 {
                    Err((wl, w, n, line.len() as int))
                } else {
                    let (w2, wl2) = if w == 0 {
                        (line.len() as int, n)
                    } else {
                        (w, wl)
                    };
                    if line.len() > 0 {
                        Ok((w2, wl2, h + 1, cells + line))
                    } else {
                        Ok((w2, wl2, h, cells))
                    }
                }
            },
        }
    }
}

/// The lines as character sequences.
pub open spec fn lines_view(lines: Seq<Vec<char>>) -> Seq<Seq<char>> {
    lines.map_values(|l: Vec<char>| l@)
}

/// A successful read holds `width` cells in each row.
proof fn lemma_read_grid_size(lines: Seq<Seq<char>>)
    ensures
        read_grid(lines) is Ok ==> ({
            let (w, wl, h, cells) = read_grid(lines)->Ok_0;
            &&& w >= 0 && h >= 0 && 0 <= wl
            &&& lines.len() > 0 ==> wl < lines.len()
            &&& cells.len() == w * h
            &&& w == 0 ==> h == 0
        }),
    decreases lines.len(),
{
    if lines.len() > 0 {
        let n = lines.len() - 1;
        lemma_read_grid_size(lines.drop_last());
        if read_grid(lines) is Ok {
            let (w, wl, h, cells) = read_grid(lines.drop_last())->Ok_0;
            let line = lines[n];
            let (w3, wl3, h3, cells3) = read_grid(lines)->Ok_0;
            if w == 0 {
                assert(h == 0 && cells.len() == 0);
                assert(w3 == line.len() && wl3 == n);
                if line.len() > 0 {
                    assert(h3 == 1 && cells3 =~= cells + line);
                } else {
                    assert(h3 == 0 && cells3 == cells);
                }
            } else {
                if lines.drop_last().len() == 0 {
                    assert(read_grid(lines.drop_last()) == Ok::<
                        (int, int, int, Seq<char>),
                        (int, int, int, int),
                    >((0, 0, 0, Seq::empty())));
                }
                assert(lines.drop_last().len() > 0);
                assert(w3 == w && wl3 == wl);
                if line.len() > 0 {
                    assert(line.len() == w);
                    assert(h3 == h + 1 && cells3 == cells + line);
                    assert(w * (h + 1) == w * h + w) by (nonlinear_arith);
                } else {
                    assert(h3 == h && cells3 == cells);
                }
            }
        }
    }
}

/// All characters of the lines, in order.
pub open spec fn joined(lines: Seq<Seq<char>>) -> Seq<char>
    decreases lines.len(),
{
    if lines.len() == 0 {
        Seq::empty()
    } else {
        joined(lines.drop_last()) + lines.last()
    }
}

/// What reading grid lines means: on success every line is empty or as wide
/// as the grid, and the cells are all lines joined; on failure line `l2`,
/// non-empty, differs in width from line `l1`, which came first and set the
/// width.
pub proof fn lemma_read_grid_meaning(lines: Seq<Seq<char>>)
    ensures
        read_grid(lines) is Ok ==> ({
            let (w, wl, h, cells) = read_grid(lines)->Ok_0;
            &&& cells == joined(lines)
            &&& forall|j: int|
                0 <= j < lines.len() ==> #[trigger] lines[j].len() == 0 || lines[j].len() == w
        }),
        read_grid(lines) is Err ==> ({
            let (l1, w1, l2, w2) = read_grid(lines)->Err_0;
            &&& 0 <= l1 < l2 < lines.len()
            &&& lines[l1].len() == w1 > 0
            &&& lines[l2].len() == w2 > 0
            &&& w1 != w2
        }),
    decreases lines.len(),
{
    if lines.len() > 0 {
        let n = lines.len() - 1;
        let pre = lines.drop_last();
        lemma_read_grid_meaning(pre);
        lemma_read_grid_size(pre);
        lemma_read_grid_width_line(pre);
        if read_grid(pre) is Ok {
            let (w, wl, h, cells) = read_grid(pre)->Ok_0;
            if read_grid(lines) is Ok {
                assert forall|j: int| 0 <= j < lines.len() implies #[trigger] lines[j].len() == 0
                    || lines[j].len() == read_grid(lines)->Ok_0.0 by {
                    if j < n {
                        assert(lines[j] == pre[j]);
                    }
                }
                if lines[n].len() == 0 {
                    assert(joined(lines) =~= joined(pre));
                }
            }
        }
    }
}

/// While the width is zero every line read so far is empty; once it is set,
/// the line that set it has that width.
proof fn lemma_read_grid_width_line(lines: Seq<Seq<char>>)
    ensures
        read_grid(lines) is Ok ==> ({
            let (w, wl, h, cells) = read_grid(lines)->Ok_0;
            &&& w == 0 ==> forall|j: int| 0 <= j < lines.len() ==> #[trigger] lines[j].len() == 0
            &&& w != 0 ==> 0 <= wl < lines.len() && lines[wl].len() == w
        }),
    decreases lines.len(),
{
    if lines.len() > 0 {
        let n = lines.len() - 1;
        let pre = lines.drop_last();
        lemma_read_grid_width_line(pre);
        if read_grid(lines) is Ok {
            assert forall|j: int| 0 <= j < n implies #[trigger] lines[j] == pre[j] by {}
        }
    }
}

impl ArrayNd<2, char> {
    /// Reads a character grid from its lines. Empty lines are skipped; the
    /// first line sets the width (as does each line while the width is zero),
    /// and every other non-empty line must have that width.
    pub fn from_buffer(lines: &Vec<Vec<char>>) -> (r: Result<Self, CharArrayParseError>)
        ensures
            match read_grid(lines_view(lines@)) {
                Ok((w, wl, h, cells)) => r is Ok && r->Ok_0.wf() && r->Ok_0.dims@ == seq![
                    w as usize,
                    h as usize,
                ] && r->Ok_0.data@ == cells,
                Err((l1, w1, l2, w2)) => r == Err::<Self, CharArrayParseError>(
                    CharArrayParseError::InconsistentLineWidth(
                        l1 as usize,
                        w1 as usize,
                        l2 as usize,
                        w2 as usize,
                    ),
                ),
            },
            r is Ok ==> r->Ok_0.data@ == joined(lines_view(lines@)) && forall|j: int|
                0 <= j < lines.len() ==> #[trigger] lines@[j].len() == 0 || lines@[j].len()
                    == r->Ok_0.dims@[0],
            r matches Err(CharArrayParseError::InconsistentLineWidth(l1, w1, l2, w2)) ==> l1 < l2
                < lines.len() && lines@[l1 as int].len() == w1 > 0 && lines@[l2 as int].len() == w2
                > 0 && w1 != w2,
    {
        let ghost all = lines_view(lines@);
        let mut array2d_width_line_number: usize = 0;
        let mut array2d_width: usize = 0;
        let mut data: Vec<char> = Vec::new();
        let mut height: usize = 0;
        let mut line_number: usize = 0;
        while line_number < lines.len()
            invariant
                line_number <= lines.len(),
                all == lines_view(lines@),
                read_grid(all.subrange(0, line_number as int)) == Ok::<
                    (int, int, int, Seq<char>),
                    (int, int, int, int),
                >(
                    (
                        array2d_width as int,
                        array2d_width_line_number as int,
                        height as int,
                        data@,
                    ),
                ),
                height <= line_number,
            decreases lines.len() - line_number,
        {
            let line = &lines[line_number];
            let line_width = line.len();
            proof {
                let pre = all.subrange(0, line_number + 1);
                assert(pre.drop_last() =~= all.subrange(0, line_number as int));
                assert(pre[line_number as int] == line@);
            }
            if array2d_width == 0 {
                array2d_width = line_width;
                array2d_width_line_number = line_number;
            } else if array2d_width != line_width && line_width != 0 {
                proof {
                    lemma_read_grid_prefix_err(all, line_number as int + 1);
                    lemma_read_grid_meaning(all);
                    assert(all[array2d_width_line_number as int].len() == lines@[array2d_width_line_number as int].len());
                }
                return Err(
                    CharArrayParseError::InconsistentLineWidth(
                        array2d_width_line_number,
                        array2d_width,
                        line_number,
                        line_width,
                    ),
                );
            }
            if line_width > 0 {
                height = height + 1;
                let ghost before = data@;
                let mut c: usize = 0;
                while c < line_width
                    invariant
                        c <= line_width,
                        line_width == line@.len(),
                        data@ == before + line@.subrange(0, c as int),
                    decreases line_width - c,
                {
                    data.push(line[c]);
                    proof {
                        assert(data@ =~= before + line@.subrange(0, c + 1));
                    }
                    c = c + 1;
                }
                proof {
                    assert(line@.subrange(0, line_width as int) =~= line@);
                }
            }
            line_number = line_number + 1;
        }
        proof {
            assert(all.subrange(0, lines.len() as int) =~= all);
            lemma_read_grid_meaning(all);
            assert forall|j: int| 0 <= j < lines.len() implies #[trigger] lines@[j].len() == all[j].len() by {}
            lemma_read_grid_size(all);
            lemma_small_extents(array2d_width, height, 0);
            assert(data@.len() == array2d_width * height);
            assert(data.len() <= usize::MAX);
        }
        let r = ArrayNd { data, dims: [array2d_width, height], dim_strides: [1, array2d_width] };
        proof {
            assert(r.dims@ =~= seq![array2d_width, height]);
        }
        Ok(r)
    }
}

/// Once reading a prefix of the lines fails, reading all of them fails the
/// same way.
proof fn lemma_read_grid_prefix_err(lines: Seq<Seq<char>>, i: int)
    requires
        0 <= i <= lines.len(),
        read_grid(lines.subrange(0, i)) is Err,
    ensures
        read_grid(lines) == read_grid(lines.subrange(0, i)),
    decreases lines.len() - i,
{
    if i < lines.len() {
        let next = lines.subrange(0, i + 1);
        assert(next.drop_last() =~= lines.subrange(0, i));
        lemma_read_grid_prefix_err(lines, i + 1);
    } else {
        assert(lines.subrange(0, i) =~= lines);
    }
}

/// The lines of `s`: split at each `'\n'`, with a `'\r'` before it removed;
/// text after the last line break forms a final line when it is not empty.
fn split_lines(s: &str) -> (r: Vec<Vec<char>>) {
    let mut lines: Vec<Vec<char>> = Vec::new();
    let mut current: Vec<char> = Vec::new();
    for c in s.chars() {
        if c == '\n' {
            let n = current.len();
            if n > 0 && current[n - 1] == '\r' {
                current.pop();
            }
            lines.push(current);
            current = Vec::new();
        } else {
            current.push(c);
        }
    }
    if current.len() > 0 {
        lines.push(current);
    }
    lines
}

impl std::str::FromStr for ArrayNd<2, char> {
    type Err = CharArrayParseError;

    fn from_str(s: &str) -> Result<Self, Self::Err> {
        let lines = split_lines(s);
        Self::from_buffer(&lines)
    }
}

/// `p` moved back by `offset`, coordinate by coordinate.
pub open spec fn shifted_back(p: Seq<int>, offset: Seq<i32>) -> Seq<int> {
    Seq::new(p.len(), |j: int| p[j] - offset[j])
}

/// `p` lies inside a shape with extents `dims`.
pub open spec fn inside(p: Seq<int>, dims: Seq<usize>) -> bool {
    forall|j: int| 0 <= j < dims.len() ==> 0 <= #[trigger] p[j] < dims[j]
}

/// The cell of `a` at position `p`, or `default` where `p` lies outside `a`.
pub open spec fn cell_or<const N: usize, T>(a: ArrayNd<N, T>, p: Seq<int>, default: T) -> T {
    if inside(p, a.dims@) {
        a.data@[linear_of(ints_of_usize(a.dims@), p)]
    } else {
        default
    }
}

impl<const C: usize, T: Copy> ArrayNd<C, T> {
    /// An array with extents `new_dims` whose cell at position `p` holds this
    /// array's cell at `p - offset`, or `default` where that lies outside.
    /// Positions of the new array and their shifts must fit in `i32`.
    pub fn resized(&self, new_dims: [usize; C], default: T, offset: Vector<C, i32>) -> (r: Self)
        requires
            self.wf(),
            extents_positive(ints_of_usize(new_dims@)),
            extent(ints_of_usize(new_dims@)) <= usize::MAX,
            forall|j: int|
                0 <= j < C ==> #[trigger] new_dims@[j] - 1 - offset.values@[j] <= i32::MAX
                    && new_dims@[j] - 1 <= i32::MAX && i32::MIN <= -offset.values@[j],
        ensures
            r.wf(),
            r.dims == new_dims,
            forall|k: int|
                0 <= k < r.data.len() ==> #[trigger] r.data@[k] == cell_or(
                    *self,
                    shifted_back(coordinates_of(ints_of_usize(new_dims@), k), offset.values@),
                    default,
                ),
    {
        let ghost nd = ints_of_usize(new_dims@);
        let mut new = Self::new(new_dims, default);
        let mut k: usize = 0;
        while k < new.data.len()
            invariant
                self.wf(),
                new.wf(),
                new.dims == new_dims,
                nd == ints_of_usize(new_dims@),
                extents_positive(nd),
                forall|j: int|
                    0 <= j < C ==> #[trigger] new_dims@[j] - 1 - offset.values@[j] <= i32::MAX
                        && new_dims@[j] - 1 <= i32::MAX && i32::MIN <= -offset.values@[j],
                k <= new.data.len(),
                forall|m: int|
                    0 <= m < k ==> #[trigger] new.data@[m] == cell_or(
                        *self,
                        shifted_back(coordinates_of(nd, m), offset.values@),
                        default,
                    ),
                forall|m: int| k <= m < new.data.len() ==> #[trigger] new.data@[m] == default,
            decreases new.data.len() - k,
        {
            let ghost c = coordinates_of(nd, k as int);
            proof {
                lemma_coordinates_bounded(nd, k as int);
                assert forall|j: int| 0 <= j < C implies #[trigger] c[j] <= i32::MAX by {
                    assert(new_dims@[j] - 1 <= i32::MAX);
                }
            }
            let position = new.unindex(k);
            if let Some(i) = position {
                proof {
                    assert forall|j: int| 0 <= j < C implies i32::MIN <= #[trigger] i.values@[j]
                        - offset.values@[j] <= i32::MAX by {
                        assert(i.values@[j] == c[j]);
                        assert(0 <= c[j] < nd[j]);
                    }
                }
                let src = i.difference(offset);
                let ghost sp = shifted_back(c, offset.values@);
                proof {
                    assert(ints_of_i32(src.values@) =~= sp) by {
                        assert forall|j: int| 0 <= j < C implies ints_of_i32(src.values@)[j]
                            == sp[j] by {
                            assert(i.values@[j] == c[j]);
                        }
                    }
                    assert(self.spec_in_bounds(src) == inside(sp, self.dims@)) by {
                        if inside(sp, self.dims@) {
                            assert forall|j: int| 0 <= j < C implies 0 <= #[trigger] src.values@[j]
                                < self.dims@[j] by {
                                assert(src.values@[j] == sp[j]);
                            }
                        }
                        if self.spec_in_bounds(src) {
                            assert forall|j: int| 0 <= j < C implies 0 <= #[trigger] sp[j]
                                < self.dims@[j] by {
                                assert(src.values@[j] == sp[j]);
                            }
                        }
                    }
                }
                if let Some(v) = self.get(src) {
                    new.set_linear(k, *v);
                }
            }
            k = k + 1;
        }
        new
    }

    /// This array surrounded by `padding` cells of `default` on each side of
    /// every axis.
    pub fn padded(&self, padding: i32, default: T) -> (r: Self)
        requires
            self.wf(),
            padding >= 0,
            forall|j: int|
                0 <= j < C ==> 0 < #[trigger] self.dims@[j] + 2 * padding <= i32::MAX,
            extent(ints_of_usize(Seq::new(C as nat, |j: int| (self.dims@[j] + 2 * padding) as usize)))
                <= usize::MAX,
        ensures
            r.wf(),
            forall|j: int| 0 <= j < C ==> #[trigger] r.dims@[j] == self.dims@[j] + 2 * padding,
            forall|k: int|
                0 <= k < r.data.len() ==> #[trigger] r.data@[k] == cell_or(
                    *self,
                    shifted_back(
                        coordinates_of(ints_of_usize(r.dims@), k),
                        Seq::new(C as nat, |j: int| padding),
                    ),
                    default,
                ),
    {
        let mut new_dims = self.dims;
        let mut j: usize = 0;
        while j < C
            invariant
                j <= C,
                padding >= 0,
                forall|m: int|
                    0 <= m < C ==> 0 < #[trigger] self.dims@[m] + 2 * padding <= i32::MAX,
                forall|m: int| 0 <= m < j ==> #[trigger] new_dims@[m] == self.dims@[m] + 2 * padding,
                forall|m: int| j <= m < C ==> #[trigger] new_dims@[m] == self.dims@[m],
            decreases C - j,
        {
            assert(0 < self.dims@[j as int] + 2 * padding <= i32::MAX);
            new_dims[j] = new_dims[j] + 2 * padding as usize;
            j = j + 1;
        }
        let offset = Vector::all(padding);
        proof {
            assert(new_dims@ =~= Seq::new(C as nat, |m: int| (self.dims@[m] + 2 * padding) as usize));
            assert(offset.values@ =~= Seq::new(C as nat, |m: int| padding));
            assert(extents_positive(ints_of_usize(new_dims@))) by {
                assert forall|m: int| 0 <= m < C implies #[trigger] ints_of_usize(new_dims@)[m]
                    > 0 by {
                    assert(new_dims@[m] == self.dims@[m] + 2 * padding);
                }
            }
            assert forall|m: int| 0 <= m < C implies #[trigger] new_dims@[m] - 1 - offset.values@[m]
                <= i32::MAX && new_dims@[m] - 1 <= i32::MAX && i32::MIN <= -offset.values@[m] by {
                assert(new_dims@[m] == self.dims@[m] + 2 * padding);
            }
        }
        self.resized(new_dims, default, offset)
    }
}

impl<const N: usize, T> ArrayNd<N, T> {
    /// Positions of the cells that satisfy `predicate`, in storage order.
    /// Every position of the array must fit in `i32`.
    pub fn find_all<F: Fn(&T) -> bool>(&self, predicate: F) -> (r: Vec<Vector<N, i32>>)
        requires
            self.wf(),
            self.spec_unindex_ok(),
            forall|k: int| 0 <= k < self.data.len() ==> #[trigger] self.spec_unindex_fits(k),
            forall|k: int| 0 <= k < self.data.len() ==> predicate.requires((&self.data@[k],)),
        ensures
            exists|hits: Seq<int>|
                #![trigger hits.len()]
                hits.len() == r.len() && (forall|m: int, q: int|
                    0 <= m < q < hits.len() ==> hits[m] < hits[q]) && (forall|m: int|
                    0 <= m < hits.len() ==> 0 <= #[trigger] hits[m] < self.data.len()
                        && predicate.ensures((&self.data@[hits[m]],), true)
                        && self.spec_is_unindex(hits[m], r@[m])) && (forall|k: int|
                    0 <= k < self.data.len() && !hits.contains(k) ==> predicate.ensures(
                        (&self.data@[k],),
                        false,
                    )),
    {
        let mut found: Vec<Vector<N, i32>> = Vec::new();
        let ghost mut hits: Seq<int> = Seq::empty();
        let mut k: usize = 0;
        while k < self.data.len()
            invariant
                k <= self.data.len(),
                self.spec_unindex_ok(),
                forall|m: int| 0 <= m < self.data.len() ==> #[trigger] self.spec_unindex_fits(m),
                forall|m: int| 0 <= m < self.data.len() ==> predicate.requires((&self.data@[m],)),
                hits.len() == found.len(),
                forall|m: int, q: int| 0 <= m < q < hits.len() ==> hits[m] < hits[q],
                forall|m: int|
                    0 <= m < hits.len() ==> 0 <= #[trigger] hits[m] < k && predicate.ensures(
                        (&self.data@[hits[m]],),
                        true,
                    ) && self.spec_is_unindex(hits[m], found@[m]),
                forall|q: int|
                    0 <= q < k && !hits.contains(q) ==> predicate.ensures((&self.data@[q],), false),
            decreases self.data.len() - k,
        {
            if predicate(&self.data[k]) {
                assert(self.spec_unindex_fits(k as int));
                match self.unindex(k) {
                    Some(p) => {
                        found.push(p);
                        proof {
                            let old_hits = hits;
                            hits = hits.push(k as int);
                            assert forall|q: int|
                                0 <= q < k + 1 && !hits.contains(q) implies predicate.ensures(
                                (&self.data@[q],),
                                false,
                            ) by {
                                if q == k {
                                    assert(hits[old_hits.len() as int] == q);
                                }
                                if old_hits.contains(q) {
                                    let w = choose|w: int| 0 <= w < old_hits.len() && old_hits[w] == q;
                                    assert(hits[w] == q);
                                }
                            }
                        }
                    },
                    None => {},
                }
            } else {
                proof {
                    assert forall|q: int|
                        0 <= q < k + 1 && !hits.contains(q) implies predicate.ensures(
                        (&self.data@[q],),
                        false,
                    ) by {}
                }
            }
            k = k + 1;
        }
        found
    }
}

impl<const N: usize, T: PartialEq> ArrayNd<N, T> {
    /// Positions of the cells equal to `item`, in storage order. Every
    /// position of the array must fit in `i32`.
    pub fn find_all_items(&self, item: &T) -> (r: Vec<Vector<N, i32>>)
        requires
            self.wf(),
            self.spec_unindex_ok(),
            T::obeys_eq_spec(),
            forall|k: int| 0 <= k < self.data.len() ==> #[trigger] self.spec_unindex_fits(k),
        ensures
            exists|hits: Seq<int>|
                #![trigger hits.len()]
                hits.len() == r.len() && (forall|m: int, q: int|
                    0 <= m < q < hits.len() ==> hits[m] < hits[q]) && (forall|m: int|
                    0 <= m < hits.len() ==> 0 <= #[trigger] hits[m] < self.data.len()
                        && self.data@[hits[m]].eq_spec(item) && self.spec_is_unindex(
                        hits[m],
                        r@[m],
                    )) && (forall|k: int|
                    0 <= k < self.data.len() && !hits.contains(k) ==> !self.data@[k].eq_spec(
                        item,
                    )),
    {
        let mut found: Vec<Vector<N, i32>> = Vec::new();
        let ghost mut hits: Seq<int> = Seq::empty();
        let mut k: usize = 0;
        while k < self.data.len()
            invariant
                k <= self.data.len(),
                self.spec_unindex_ok(),
                T::obeys_eq_spec(),
                forall|m: int| 0 <= m < self.data.len() ==> #[trigger] self.spec_unindex_fits(m),
                hits.len() == found.len(),
                forall|m: int, q: int| 0 <= m < q < hits.len() ==> hits[m] < hits[q],
                forall|m: int|
                    0 <= m < hits.len() ==> 0 <= #[trigger] hits[m] < k && self.data@[hits[m]].eq_spec(
                        item,
                    ) && self.spec_is_unindex(hits[m], found@[m]),
                forall|q: int| 0 <= q < k && !hits.contains(q) ==> !self.data@[q].eq_spec(item),
            decreases self.data.len() - k,
        {
            if self.data[k] == *item {
                assert(self.spec_unindex_fits(k as int));
                match self.unindex(k) {
                    Some(p) => {
                        found.push(p);
                        proof {
                            let old_hits = hits;
                            hits = hits.push(k as int);
                            assert forall|q: int| 0 <= q < k + 1 && !hits.contains(q) implies !self.data@[q].eq_spec(item) by {
                                if q == k {
                                    assert(hits[old_hits.len() as int] == q);
                                }
                                if old_hits.contains(q) {
                                    let w = choose|w: int| 0 <= w < old_hits.len() && old_hits[w] == q;
                                    assert(hits[w] == q);
                                }
                            }
                        }
                    },
                    None => {},
                }
            }
            k = k + 1;
        }
        found
    }
}

/// The fixed coordinates of `matching` agree with `coords`.
pub open spec fn block_matches<const N: usize>(
    coords: Seq<int>,
    matching: [Option<usize>; N],
) -> bool {
    forall|j: int|
        0 <= j < N && (#[trigger] matching@[j]) is Some ==> coords[j] == matching@[j]->0
}

/// Number of free axes in `matching`.
pub open spec fn free_axes(m: Seq<Option<usize>>) -> nat
    decreases m.len(),
{
    if m.len() == 0 {
        0
    } else {
        free_axes(m.drop_last()) + if m.last() is None {
            1nat
        } else {
            0nat
        }
    }
}

proof fn lemma_fix_axis(m: Seq<Option<usize>>, i: int, a: usize)
    requires
        0 <= i < m.len(),
        m[i] is None,
    ensures
        free_axes(m.update(i, Some(a))) < free_axes(m),
    decreases m.len(),
{
    let u = m.update(i, Some(a));
    if i == m.len() - 1 {
        assert(u.drop_last() =~= m.drop_last());
    } else {
        assert(u.drop_last() =~= m.drop_last().update(i, Some(a)));
        lemma_fix_axis(m.drop_last(), i, a);
    }
}

/// Linear index of the position `p` inside the extents `dims`.
fn linear_position<const N: usize>(dims: &[usize; N], p: &[usize; N]) -> (r: usize)
    requires
        forall|j: int| 0 <= j < N ==> #[trigger] p@[j] < dims@[j],
        extent(ints_of_usize(dims@)) <= usize::MAX,
    ensures
        r == linear_of(ints_of_usize(dims@), ints_of_usize(p@)),
        r < extent(ints_of_usize(dims@)),
{
    let ghost d = ints_of_usize(dims@);
    let ghost q = ints_of_usize(p@);
    proof {
        assert(extents_positive(d)) by {
            assert forall|j: int| 0 <= j < d.len() implies #[trigger] d[j] > 0 by {
                assert(p@[j] < dims@[j]);
            }
        }
        assert(d.subrange(N as int, N as int) =~= Seq::<int>::empty());
        assert(q.subrange(N as int, N as int) =~= Seq::<int>::empty());
    }
    let mut result: usize = 0;
    let mut j: usize = N;
    while j > 0
        invariant
            j <= N,
            d == ints_of_usize(dims@),
            q == ints_of_usize(p@),
            extents_positive(d),
            extent(d) <= usize::MAX,
            forall|m: int| 0 <= m < N ==> #[trigger] p@[m] < dims@[m],
            result == linear_of(d.subrange(j as int, N as int), q.subrange(j as int, N as int)),
            0 <= result < extent(d.subrange(j as int, N as int)),
        decreases j,
    {
        let ghost k = (j - 1) as int;
        proof {
            let dt = d.subrange(k, N as int);
            let qt = q.subrange(k, N as int);
            assert(dt.drop_first() =~= d.subrange(j as int, N as int));
            assert(qt.drop_first() =~= q.subrange(j as int, N as int));
            assert(dt[0] == d[k] && qt[0] == q[k]);
            assert(p@[k] < dims@[k]);
            lemma_suffix_extent(d, k);
            let e = extent(d.subrange(j as int, N as int));
            assert(result * d[k] + q[k] < d[k] * e) by (nonlinear_arith)
                requires
                    0 <= result < e,
                    0 <= q[k] < d[k],
            ;
            assert(result * d[k] + q[k] == q[k] + d[k] * result) by (nonlinear_arith);
        }
        j = j - 1;
        result = result * dims[j] + p[j];
    }
    proof {
        assert(d.subrange(0, N as int) =~= d);
        assert(q.subrange(0, N as int) =~= q);
    }
    result
}

impl<const N: usize, T: Copy> ArrayNd<N, T> {
    /// Stores `v` in every cell whose coordinates agree with `matching`:
    /// `Some(c)` fixes the coordinate on that axis to `c`, `None` leaves the
    /// axis free. For example `[None, Some(3), None]` paints the plane at
    /// y = 3 of a 3D array.
    pub fn draw_block(&mut self, matching: [Option<usize>; N], v: T)
        requires
            old(self).wf(),
            extents_positive(ints_of_usize(old(self).dims@)),
            forall|j: int|
                0 <= j < N && (#[trigger] matching@[j]) is Some ==> matching@[j]->0 < old(
                    self,
                ).dims@[j],
        ensures
            final(self).wf(),
            final(self).dims == old(self).dims,
            final(self).dim_strides == old(self).dim_strides,
            final(self).data.len() == old(self).data.len(),
            forall|k: int|
                0 <= k < old(self).data.len() ==> #[trigger] final(self).data@[k] == if block_matches(
                    coordinates_of(ints_of_usize(old(self).dims@), k),
                    matching,
                ) {
                    v
                } else {
                    old(self).data@[k]
                },
        decreases free_axes(matching@),
    {
        let ghost d = ints_of_usize(self.dims@);
        // the highest free axis, if any
        let mut free: usize = N;
        let mut i: usize = N;
        while i > 0
            invariant
                i <= N,
                free == N || (i <= free < N && matching@[free as int] is None),
                free == N ==> forall|j: int| i <= j < N ==> (#[trigger] matching@[j]) is Some,
            decreases i,
        {
            i = i - 1;
            if free == N && matching[i].is_none() {
                free = i;
            }
        }
        if free == N {
            let mut position = [0usize; N];
            let mut j: usize = 0;
            while j < N
                invariant
                    j <= N,
                    forall|m: int| 0 <= m < N ==> (#[trigger] matching@[m]) is Some,
                    forall|m: int| 0 <= m < j ==> #[trigger] position@[m] == matching@[m]->0,
                decreases N - j,
            {
                if let Some(c) = matching[j] {
                    position[j] = c;
                }
                j = j + 1;
            }
            proof {
                assert forall|m: int| 0 <= m < N implies #[trigger] position@[m] < self.dims@[m] by {
                    assert(matching@[m] is Some);
                }
            }
            let index = linear_position(&self.dims, &position);
            let ghost p = ints_of_usize(position@);
            proof {
                assert forall|k: int| 0 <= k < self.data.len() implies (block_matches(
                    #[trigger] coordinates_of(d, k),
                    matching,
                ) <==> k == index) by {
                    lemma_coordinates_bounded(d, k);
                    if block_matches(coordinates_of(d, k), matching) {
                        assert(coordinates_of(d, k) =~= p) by {
                            assert forall|m: int| 0 <= m < N implies coordinates_of(d, k)[m]
                                == p[m] by {
                                assert(matching@[m] is Some);
                            }
                        }
                        lemma_linear_of_coordinates(d, k);
                    }
                    if k == index {
                        assert forall|m: int| 0 <= m < N implies p[m] < d[m] by {
                            assert(matching@[m] is Some);
                        }
                        lemma_coordinates_of_linear(d, p);
                        assert(ints_of_usize(position@).map_values(|x: int| x) =~= p);
                        assert forall|m: int|
                            0 <= m < N && (#[trigger] matching@[m]) is Some implies coordinates_of(
                            d,
                            k,
                        )[m] == matching@[m]->0 by {}
                    }
                }
            }
            self.set_linear(index, v);
        } else {
            let ghost before = self.data@;
            proof {
                assert forall|k: int| 0 <= k < before.len() implies 0 <= #[trigger] coordinates_of(
                    d,
                    k,
                )[free as int] by {
                    lemma_coordinates_bounded(d, k);
                }
            }
            let mut a: usize = 0;
            let mut fixed = matching;
            while a < self.dims[free]
                invariant
                    free < N,
                    matching@[free as int] is None,
                    fixed@ == matching@.update(free as int, fixed@[free as int]),
                    d == ints_of_usize(self.dims@),
                    self.wf(),
                    self.dims == old(self).dims,
                    self.dim_strides == old(self).dim_strides,
                    before == old(self).data@,
                    self.data.len() == before.len(),
                    extents_positive(d),
                    forall|j: int|
                        0 <= j < N && (#[trigger] matching@[j]) is Some ==> matching@[j]->0
                            < self.dims@[j],
                    a <= self.dims@[free as int],
                    forall|k: int|
                        0 <= k < before.len() ==> #[trigger] self.data@[k] == if block_matches(
                            coordinates_of(d, k),
                            matching,
                        ) && coordinates_of(d, k)[free as int] < a {
                            v
                        } else {
                            before[k]
                        },
                decreases self.dims@[free as int] - a,
            {
                fixed[free] = Some(a);
                proof {
                    assert(fixed@ =~= matching@.update(free as int, Some(a)));
                    lemma_fix_axis(matching@, free as int, a);
                }
                let ghost mid = self.data@;
                self.draw_block(fixed, v);
                proof {
                    assert forall|k: int| 0 <= k < before.len() implies #[trigger] self.data@[k]
                        == if block_matches(coordinates_of(d, k), matching) && coordinates_of(
                        d,
                        k,
                    )[free as int] < a + 1 {
                        v
                    } else {
                        before[k]
                    } by {
                        let c = coordinates_of(d, k);
                        assert(block_matches(c, fixed) == (block_matches(c, matching) && c[free as int]
                            == a)) by {
                            if block_matches(c, matching) && c[free as int] == a {
                                assert forall|j: int|
                                    0 <= j < N && (#[trigger] fixed@[j]) is Some implies c[j]
                                    == fixed@[j]->0 by {
                                    if j != free {
                                        assert(fixed@[j] == matching@[j]);
                                    }
                                }
                            }
                            if block_matches(c, fixed) {
                                assert(fixed@[free as int] is Some);
                                assert forall|j: int|
                                    0 <= j < N && (#[trigger] matching@[j]) is Some implies c[j]
                                    == matching@[j]->0 by {
                                    assert(fixed@[j] == matching@[j]);
                                }
                            }
                        }
                    }
                }
                a = a + 1;
            }
            proof {
                assert forall|k: int| 0 <= k < before.len() implies #[trigger] coordinates_of(d, k)[
                    free as int] < self.dims@[free as int] by {
                    lemma_coordinates_bounded(d, k);
                }
            }
        }
    }
}

} // verus!
