//! Fixed-size vectors with element-wise operations.
use crate::domain::Domain;
use crate::linear_index::{
    coordinates_of, extent, extents_positive, ints_of_i32, lemma_coordinates_len,
    lemma_suffix_extent, linear_of, LinearIndex,
};
use crate::modular::ModularDecompose;
use vstd::prelude::*;

verus! {

/// A vector of `C` components.
#[derive(Hash, Debug, Clone, Copy, PartialEq, Eq)]
pub struct Vector<const C: usize, T> {
    pub values: [T; C],
}

pub type V2<T> = Vector<2, T>;

pub type V3<T> = Vector<3, T>;

pub type V4<T> = Vector<4, T>;

pub type V2i32 = V2<i32>;

pub type V2usize = V2<usize>;

/// Sum of the products of the first `k` component pairs.
pub open spec fn dot_prefix(a: Seq<i32>, b: Seq<i32>, k: int) -> int
    decreases k,
{
    if k <= 0 {
        0
    } else {
        dot_prefix(a, b, k - 1) + a[k - 1] * b[k - 1]
    }
}

impl<const C: usize, T> Vector<C, T> {
    pub fn new(values: [T; C]) -> (r: Self)
        ensures
            r.values == values,
    {
        Vector { values }
    }
}

impl<const C: usize, T: Copy> Vector<C, T> {
    /// A vector whose components all equal `value`.
    pub fn all(value: T) -> (r: Self)
        ensures
            forall|i: int| 0 <= i < C ==> r.values@[i] == value,
    {
        Vector { values: [value; C] }
    }

    /// Applies `f` to each component.
    pub fn elementwise_unary<F: Fn(T) -> T>(&self, f: F) -> (r: Self)
        requires
            forall|i: int| 0 <= i < C ==> f.requires((self.values@[i],)),
        ensures
            forall|i: int| 0 <= i < C ==> f.ensures((self.values@[i],), #[trigger] r.values@[i]),
    {
        let mut result = self.values;
        let mut x: usize = 0;
        while x < C
            invariant
                x <= C,
                forall|i: int| 0 <= i < C ==> f.requires((self.values@[i],)),
                forall|i: int| x <= i < C ==> #[trigger] result@[i] == self.values@[i],
                forall|i: int|
                    0 <= i < x ==> f.ensures((self.values@[i],), #[trigger] result@[i]),
            decreases C - x,
        {
            result[x] = f(result[x]);
            x = x + 1;
        }
        Vector { values: result }
    }

    /// Folds the components from the first, combining the running value with
    /// each later component by `f`.
    pub fn aggregate<F: Fn(T, T) -> T>(&self, f: F) -> (r: T)
        requires
            C > 0,
            forall|a: T, b: T| #[trigger] f.requires((a, b)),
        ensures
            exists|acc: Seq<T>|
                acc.len() == C && acc[0] == self.values@[0] && r == acc[C - 1] && (forall|i: int|
                    1 <= i < C ==> f.ensures((acc[i - 1], self.values@[i]), #[trigger] acc[i])),
    {
        let mut acc = self.values[0];
        let ghost mut steps: Seq<T> = seq![acc];
        let mut x: usize = 1;
        while x < C
            invariant
                1 <= x <= C,
                forall|a: T, b: T| #[trigger] f.requires((a, b)),
                steps.len() == x,
                steps[0] == self.values@[0],
                acc == steps[x - 1],
                forall|i: int|
                    1 <= i < x ==> f.ensures((steps[i - 1], self.values@[i]), #[trigger] steps[i]),
            decreases C - x,
        {
            let next = f(acc, self.values[x]);
            proof {
                steps = steps.push(next);
            }
            acc = next;
            x = x + 1;
        }
        assert(steps.len() == C && steps[0] == self.values@[0] && acc == steps[C - 1]);
        acc
    }

    /// Combines the components of `self` and `rhs` pairwise by `f`.
    pub fn elementwise_binary<F: Fn(T, T) -> T>(&self, rhs: Self, f: F) -> (r: Self)
        requires
            forall|i: int| 0 <= i < C ==> f.requires((self.values@[i], rhs.values@[i])),
        ensures
            forall|i: int|
                0 <= i < C ==> f.ensures(
                    (self.values@[i], rhs.values@[i]),
                    #[trigger] r.values@[i],
                ),
    {
        let mut result = self.values;
        let mut x: usize = 0;
        while x < C
            invariant
                x <= C,
                forall|i: int| 0 <= i < C ==> f.requires((self.values@[i], rhs.values@[i])),
                forall|i: int| x <= i < C ==> #[trigger] result@[i] == self.values@[i],
                forall|i: int|
                    0 <= i < x ==> f.ensures(
                        (self.values@[i], rhs.values@[i]),
                        #[trigger] result@[i],
                    ),
            decreases C - x,
        {
            result[x] = f(result[x], rhs.values[x]);
            x = x + 1;
        }
        Vector { values: result }
    }
}

/// The smaller of two values; the first on a tie.
fn lesser<T: Domain>(a: T, b: T) -> (c: T)
    ensures
        c == if a.key() <= b.key() {
            a
        } else {
            b
        },
{
    if a.at_most(&b) {
        a
    } else {
        b
    }
}

/// The larger of two values; the second on a tie.
fn greater<T: Domain>(a: T, b: T) -> (c: T)
    ensures
        c == if a.key() <= b.key() {
            b
        } else {
            a
        },
{
    if a.at_most(&b) {
        b
    } else {
        a
    }
}

impl<const C: usize, T: Domain> Vector<C, T> {
    /// The smaller of each pair of components; the left one on a tie.
    pub fn elementwise_min(&self, rhs: Self) -> (r: Self)
        ensures
            forall|i: int|
                0 <= i < C ==> #[trigger] r.values@[i] == if self.values@[i].key()
                    <= rhs.values@[i].key() {
                    self.values@[i]
                } else {
                    rhs.values@[i]
                },
    {
        self.elementwise_binary(rhs, lesser)
    }

    /// The larger of each pair of components; the right one on a tie.
    pub fn elementwise_max(&self, rhs: Self) -> (r: Self)
        ensures
            forall|i: int|
                0 <= i < C ==> #[trigger] r.values@[i] == if self.values@[i].key()
                    <= rhs.values@[i].key() {
                    rhs.values@[i]
                } else {
                    self.values@[i]
                },
    {
        self.elementwise_binary(rhs, greater)
    }
}

impl<const C: usize> Vector<C, i32> {
    /// Inner product. Every product and every partial sum must fit in `i32`.
    pub fn inner(&self, rhs: Self) -> (r: i32)
        requires
            forall|i: int|
                0 <= i < C ==> i32::MIN <= #[trigger] (self.values@[i] * rhs.values@[i])
                    <= i32::MAX,
            forall|k: int|
                0 <= k <= C ==> i32::MIN <= #[trigger] dot_prefix(self.values@, rhs.values@, k)
                    <= i32::MAX,
        ensures
            r == dot_prefix(self.values@, rhs.values@, C as int),
    {
        let mut acc: i32 = 0;
        let mut x: usize = 0;
        while x < C
            invariant
                x <= C,
                forall|i: int|
                    0 <= i < C ==> i32::MIN <= #[trigger] (self.values@[i] * rhs.values@[i])
                        <= i32::MAX,
                forall|k: int|
                    0 <= k <= C ==> i32::MIN <= #[trigger] dot_prefix(
                        self.values@,
                        rhs.values@,
                        k,
                    ) <= i32::MAX,
                acc == dot_prefix(self.values@, rhs.values@, x as int),
            decreases C - x,
        {
            assert(dot_prefix(self.values@, rhs.values@, x + 1) == acc + self.values@[x as int]
                * rhs.values@[x as int]);
            assert(i32::MIN <= dot_prefix(self.values@, rhs.values@, x + 1) <= i32::MAX);
            let product = self.values[x] * rhs.values[x];
            acc = acc + product;
            x = x + 1;
        }
        acc
    }
}

/// Every component-wise sum of `a` and `b` fits in `i32`.
pub open spec fn sum_fits<const C: usize>(a: Vector<C, i32>, b: Vector<C, i32>) -> bool {
    forall|i: int| 0 <= i < C ==> i32::MIN <= #[trigger] a.values@[i] + b.values@[i] <= i32::MAX
}

/// Every component-wise difference of `a` and `b` fits in `i32`.
pub open spec fn difference_fits<const C: usize>(a: Vector<C, i32>, b: Vector<C, i32>) -> bool {
    forall|i: int| 0 <= i < C ==> i32::MIN <= #[trigger] a.values@[i] - b.values@[i] <= i32::MAX
}

/// `r` is the component-wise sum of `a` and `b`.
pub open spec fn is_sum<const C: usize>(r: Vector<C, i32>, a: Vector<C, i32>, b: Vector<C, i32>) -> bool {
    forall|i: int| 0 <= i < C ==> #[trigger] r.values@[i] == a.values@[i] + b.values@[i]
}

/// `r` is the component-wise difference of `a` and `b`.
pub open spec fn is_difference<const C: usize>(
    r: Vector<C, i32>,
    a: Vector<C, i32>,
    b: Vector<C, i32>,
) -> bool {
    forall|i: int| 0 <= i < C ==> #[trigger] r.values@[i] == a.values@[i] - b.values@[i]
}

/// The component-wise sum.
pub open spec fn sum_of<const C: usize>(a: Vector<C, i32>, b: Vector<C, i32>) -> Vector<C, i32> {
    choose|r: Vector<C, i32>| #[trigger] is_sum(r, a, b)
}

/// The component-wise difference.
pub open spec fn difference_of<const C: usize>(a: Vector<C, i32>, b: Vector<C, i32>) -> Vector<
    C,
    i32,
> {
    choose|r: Vector<C, i32>| #[trigger] is_difference(r, a, b)
}

impl<const C: usize> std::ops::Add for Vector<C, i32> {
    type Output = Self;

    fn add(self, rhs: Self) -> (r: Self) {
        let mut values = self.values;
        let mut x: usize = 0;
        while x < C
            invariant
                x <= C,
                sum_fits(self, rhs),
                forall|i: int|
                    0 <= i < x ==> #[trigger] values@[i] == self.values@[i] + rhs.values@[i],
            decreases C - x,
        {
            assert(i32::MIN <= self.values@[x as int] + rhs.values@[x as int] <= i32::MAX);
            values[x] = self.values[x] + rhs.values[x];
            x = x + 1;
        }
        let r = Vector { values };
        proof {
            assert(is_sum(r, self, rhs));
            let spec_r = sum_of(self, rhs);
            assert(spec_r.values =~= r.values);
        }
        r
    }
}

impl<const C: usize> vstd::std_specs::ops::AddSpecImpl for Vector<C, i32> {
    open spec fn obeys_add_spec() -> bool {
        true
    }

    open spec fn add_req(self, rhs: Self) -> bool {
        sum_fits(self, rhs)
    }

    open spec fn add_spec(self, rhs: Self) -> Self {
        sum_of(self, rhs)
    }
}

impl<const C: usize> Vector<C, i32> {
    /// The component-wise difference, where no component overflows.
    pub(crate) fn difference(self, rhs: Self) -> (r: Self)
        requires
            difference_fits(self, rhs),
        ensures
            is_difference(r, self, rhs),
    {
        let mut values = self.values;
        let mut x: usize = 0;
        while x < C
            invariant
                x <= C,
                difference_fits(self, rhs),
                forall|i: int|
                    0 <= i < x ==> #[trigger] values@[i] == self.values@[i] - rhs.values@[i],
            decreases C - x,
        {
            assert(i32::MIN <= self.values@[x as int] - rhs.values@[x as int] <= i32::MAX);
            values[x] = self.values[x] - rhs.values[x];
            x = x + 1;
        }
        Vector { values }
    }
}

impl<const C: usize> std::ops::Sub for Vector<C, i32> {
    type Output = Self;

    fn sub(self, rhs: Self) -> (r: Self) {
        let r = self.difference(rhs);
        proof {
            let spec_r = difference_of(self, rhs);
            assert(spec_r.values =~= r.values);
        }
        r
    }
}

impl<const C: usize> vstd::std_specs::ops::SubSpecImpl for Vector<C, i32> {
    open spec fn obeys_sub_spec() -> bool {
        true
    }

    open spec fn sub_req(self, rhs: Self) -> bool {
        difference_fits(self, rhs)
    }

    open spec fn sub_spec(self, rhs: Self) -> Self {
        difference_of(self, rhs)
    }
}

impl<const N: usize> LinearIndex<Vector<N, i32>> for Vector<N, i32> {
    open spec fn spec_shape_ok(&self) -> bool {
        extents_positive(ints_of_i32(self.values@)) && extent(ints_of_i32(self.values@))
            <= usize::MAX
    }

    open spec fn spec_in_bounds(&self, i: Vector<N, i32>) -> bool {
        forall|j: int| 0 <= j < N ==> 0 <= #[trigger] i.values@[j] < self.values@[j]
    }

    open spec fn spec_linear(&self, i: Vector<N, i32>) -> int {
        linear_of(ints_of_i32(self.values@), ints_of_i32(i.values@))
    }

    open spec fn spec_cardinality(&self) -> int {
        extent(ints_of_i32(self.values@))
    }

    open spec fn spec_unindex_ok(&self) -> bool {
        self.spec_shape_ok()
    }

    open spec fn spec_unindex_fits(&self, k: int) -> bool {
        true
    }

    open spec fn spec_is_unindex(&self, k: int, i: Vector<N, i32>) -> bool {
        forall|j: int| 0 <= j < N ==> #[trigger] i.values@[j] == coordinates_of(ints_of_i32(self.values@), k)[j]
    }

    fn index_unchecked(&self, i: Vector<N, i32>) -> (r: Option<usize>) {
        let ghost d = ints_of_i32(self.values@);
        let ghost p = ints_of_i32(i.values@);
        let mut result: usize = 0;
        let mut j: usize = N;
        proof {
            assert(d.subrange(N as int, N as int) =~= Seq::<int>::empty());
            assert(p.subrange(N as int, N as int) =~= Seq::<int>::empty());
        }
        while j > 0
            invariant
                j <= N,
                d == ints_of_i32(self.values@),
                p == ints_of_i32(i.values@),
                self.spec_shape_ok(),
                self.spec_in_bounds(i),
                result == linear_of(d.subrange(j as int, N as int), p.subrange(j as int, N as int)),
                0 <= result < extent(d.subrange(j as int, N as int)),
            decreases j,
        {
            let ghost k = (j - 1) as int;
            proof {
                let dt = d.subrange(k, N as int);
                let pt = p.subrange(k, N as int);
                assert(dt.drop_first() =~= d.subrange(j as int, N as int));
                assert(pt.drop_first() =~= p.subrange(j as int, N as int));
                assert(dt[0] == d[k] && pt[0] == p[k]);
                assert(0 <= p[k] < d[k]);
                lemma_suffix_extent(d, k);
                let e = extent(d.subrange(j as int, N as int));
                assert(result * d[k] + p[k] < d[k] * e) by (nonlinear_arith)
                    requires
                        0 <= result < e,
                        0 <= p[k] < d[k],
                ;
                assert(result * d[k] + p[k] == p[k] + d[k] * result) by (nonlinear_arith);
            }
            j = j - 1;
            let a = self.values[j] as usize;
            result = result * a;
            let b = i.values[j] as usize;
            result = result + b;
        }
        proof {
            assert(d.subrange(0, N as int) =~= d);
            assert(p.subrange(0, N as int) =~= p);
            lemma_suffix_extent(d, 0);
        }
        Some(result)
    }

    fn unindex(&self, i: usize) -> (r: Option<Vector<N, i32>>) {
        let ghost d = ints_of_i32(self.values@);
        let mut result = Vector { values: [0i32; N] };
        let mut rest = i;
        let mut j: usize = 0;
        proof {
            assert(d.subrange(0, N as int) =~= d);
            lemma_coordinates_len(d, i as int);
        }
        while j < N
            invariant
                j <= N,
                d == ints_of_i32(self.values@),
                self.spec_shape_ok(),
                coordinates_of(d, i as int).len() == N,
                coordinates_of(d, i as int).subrange(j as int, N as int) == coordinates_of(
                    d.subrange(j as int, N as int),
                    rest as int,
                ),
                forall|m: int|
                    0 <= m < j ==> #[trigger] result.values@[m] == coordinates_of(d, i as int)[m],
            decreases N - j,
        {
            let ghost dt = d.subrange(j as int, N as int);
            let a = self.values[j] as usize;
            proof {
                assert(dt.drop_first() =~= d.subrange(j + 1, N as int));
                assert(dt[0] == d[j as int]);
                assert(d[j as int] > 0);
                let c = coordinates_of(d, i as int);
                assert(c.subrange(j + 1, N as int) =~= c.subrange(j as int, N as int).drop_first());
                assert(c[j as int] == c.subrange(j as int, N as int)[0]);
            }
            result.values[j] = (rest % a) as i32;
            rest = rest / a;
            j = j + 1;
        }
        Some(result)
    }

    fn is_in_bounds(&self, i: &Vector<N, i32>) -> (r: bool) {
        let mut j: usize = 0;
        while j < N
            invariant
                j <= N,
                forall|m: int| 0 <= m < j ==> 0 <= #[trigger] i.values@[m] < self.values@[m],
            decreases N - j,
        {
            if i.values[j] < 0 || i.values[j] >= self.values[j] {
                return false;
            }
            j = j + 1;
        }
        true
    }
}

impl<const C: usize> ModularDecompose<Vector<C, i32>> for Vector<C, i32> {
    open spec fn spec_modulus_ok(&self, n: Vector<C, i32>) -> bool {
        forall|i: int| 0 <= i < C ==> #[trigger] n.values@[i] > 0
    }

    open spec fn spec_is_decomposition(
        &self,
        n: Vector<C, i32>,
        count: Vector<C, i32>,
        residue: Vector<C, i32>,
    ) -> bool {
        forall|i: int|
            0 <= i < C ==> #[trigger] self.values@[i].spec_is_decomposition(
                n.values@[i],
                count.values@[i],
                residue.values@[i],
            )
    }

    fn modular_decompose(&self, n: Vector<C, i32>) -> (r: (Vector<C, i32>, Vector<C, i32>)) {
        let mut counts = self.values;
        let mut residues = self.values;
        let mut x: usize = 0;
        while x < C
            invariant
                x <= C,
                self.spec_modulus_ok(n),
                forall|i: int|
                    0 <= i < x ==> #[trigger] self.values@[i].spec_is_decomposition(
                        n.values@[i],
                        counts@[i],
                        residues@[i],
                    ),
            decreases C - x,
        {
            let (c, r) = self.values[x].modular_decompose(n.values[x]);
            counts[x] = c;
            residues[x] = r;
            x = x + 1;
        }
        (Vector { values: counts }, Vector { values: residues })
    }
}

impl V2i32 {
    /// The origin.
    pub fn zero() -> (r: Self)
        ensures
            r.values@ == seq![0i32, 0i32],
    {
        Self::from_xy(0, 0)
    }

    /// The vector with both components one.
    pub fn one() -> (r: Self)
        ensures
            r.values@ == seq![1i32, 1i32],
    {
        Self::from_xy(1, 1)
    }

    /// The unit vector along x.
    pub fn basis_x() -> (r: Self)
        ensures
            r.values@ == seq![1i32, 0i32],
    {
        Self::from_xy(1, 0)
    }

    /// The unit vector along y.
    pub fn basis_y() -> (r: Self)
        ensures
            r.values@ == seq![0i32, 1i32],
    {
        Self::from_xy(0, 1)
    }
    /// The z component of the cross product: positive when `rhs` lies
    /// counter-clockwise of `self`.
    pub fn winding(&self, rhs: Self) -> (r: i32)
        requires
            i32::MIN <= self.values@[0] * rhs.values@[1] <= i32::MAX,
            i32::MIN <= self.values@[1] * rhs.values@[0] <= i32::MAX,
            i32::MIN <= self.values@[0] * rhs.values@[1] - self.values@[1] * rhs.values@[0]
                <= i32::MAX,
        ensures
            r == self.values@[0] * rhs.values@[1] - self.values@[1] * rhs.values@[0],
    {
        (self.x() * rhs.y()) - (self.y() * rhs.x())
    }

    /// The vector turned a quarter counter-clockwise.
    pub fn perp(&self) -> (r: Self)
        requires
            self.values@[1] != i32::MIN,
        ensures
            r.values@[0] == -self.values@[1],
            r.values@[1] == self.values@[0],
    {
        Self::from_xy(-self.y(), self.x())
    }
}

impl<T: Copy> V2<T> {
    pub fn from_xy(x: T, y: T) -> (r: Self)
        ensures
            r.values@ == seq![x, y],
    {
        Vector { values: [x, y] }
    }

    pub fn x(&self) -> (r: T)
        ensures
            r == self.values@[0],
    {
        self.values[0]
    }

    pub fn y(&self) -> (r: T)
        ensures
            r == self.values@[1],
    {
        self.values[1]
    }
}

impl<T: Copy> V3<T> {
    pub fn from_xyz(x: T, y: T, z: T) -> (r: Self)
        ensures
            r.values@ == seq![x, y, z],
    {
        Vector { values: [x, y, z] }
    }

    pub fn x(&self) -> (r: T)
        ensures
            r == self.values@[0],
    {
        self.values[0]
    }

    pub fn y(&self) -> (r: T)
        ensures
            r == self.values@[1],
    {
        self.values[1]
    }

    pub fn z(&self) -> (r: T)
        ensures
            r == self.values@[2],
    {
        self.values[2]
    }
}

impl<T: Copy> V4<T> {
    pub fn from_xyzw(x: T, y: T, z: T, w: T) -> (r: Self)
        ensures
            r.values@ == seq![x, y, z, w],
    {
        Vector { values: [x, y, z, w] }
    }

    pub fn x(&self) -> (r: T)
        ensures
            r == self.values@[0],
    {
        self.values[0]
    }

    pub fn y(&self) -> (r: T)
        ensures
            r == self.values@[1],
    {
        self.values[1]
    }

    pub fn z(&self) -> (r: T)
        ensures
            r == self.values@[2],
    {
        self.values[2]
    }

    pub fn w(&self) -> (r: T)
        ensures
            r == self.values@[3],
    {
        self.values[3]
    }
}

/// A scalar factor for vectors.
pub struct Scalar<T> {
    pub value: T,
}

impl<T> Scalar<T> {
    pub fn new(value: T) -> (r: Self)
        ensures
            r.value == value,
    {
        Scalar { value }
    }
}

/// Every component of `a` times `k` fits in `i32`.
pub open spec fn scaled_fits<const C: usize>(a: Vector<C, i32>, k: i32) -> bool {
    forall|i: int| 0 <= i < C ==> i32::MIN <= #[trigger] (a.values@[i] * k) <= i32::MAX
}

/// `r` is `a` with every component multiplied by `k`.
pub open spec fn is_scaled<const C: usize>(r: Vector<C, i32>, a: Vector<C, i32>, k: i32) -> bool {
    forall|i: int| 0 <= i < C ==> #[trigger] r.values@[i] == a.values@[i] * k
}

/// `a` with every component multiplied by `k`.
pub open spec fn scaled_of<const C: usize>(a: Vector<C, i32>, k: i32) -> Vector<C, i32> {
    choose|r: Vector<C, i32>| #[trigger] is_scaled(r, a, k)
}

impl<const C: usize> Vector<C, i32> {
    /// Every component multiplied by `k`, where none overflows.
    pub(crate) fn scaled(self, k: i32) -> (r: Self)
        requires
            scaled_fits(self, k),
        ensures
            is_scaled(r, self, k),
    {
        let mut values = self.values;
        let mut x: usize = 0;
        while x < C
            invariant
                x <= C,
                scaled_fits(self, k),
                forall|i: int| 0 <= i < x ==> #[trigger] values@[i] == self.values@[i] * k,
            decreases C - x,
        {
            assert(i32::MIN <= self.values@[x as int] * k <= i32::MAX);
            values[x] = self.values[x] * k;
            x = x + 1;
        }
        Vector { values }
    }
}

impl<const C: usize> std::ops::Mul<i32> for Vector<C, i32> {
    type Output = Self;

    fn mul(self, rhs: i32) -> (r: Self) {
        let r = self.scaled(rhs);
        proof {
            let spec_r = scaled_of(self, rhs);
            assert(spec_r.values =~= r.values);
        }
        r
    }
}

impl<const C: usize> vstd::std_specs::ops::MulSpecImpl<i32> for Vector<C, i32> {
    open spec fn obeys_mul_spec() -> bool {
        true
    }

    open spec fn mul_req(self, rhs: i32) -> bool {
        scaled_fits(self, rhs)
    }

    open spec fn mul_spec(self, rhs: i32) -> Self {
        scaled_of(self, rhs)
    }
}

impl<const C: usize> std::ops::Mul<Vector<C, i32>> for Scalar<i32> {
    type Output = Vector<C, i32>;

    fn mul(self, rhs: Vector<C, i32>) -> (r: Vector<C, i32>) {
        let r = rhs.scaled(self.value);
        proof {
            let spec_r = scaled_of(rhs, self.value);
            assert(spec_r.values =~= r.values);
        }
        r
    }
}

impl<const C: usize> vstd::std_specs::ops::MulSpecImpl<Vector<C, i32>> for Scalar<i32> {
    open spec fn obeys_mul_spec() -> bool {
        true
    }

    open spec fn mul_req(self, rhs: Vector<C, i32>) -> bool {
        scaled_fits(rhs, self.value)
    }

    open spec fn mul_spec(self, rhs: Vector<C, i32>) -> Vector<C, i32> {
        scaled_of(rhs, self.value)
    }
}

} // verus!
