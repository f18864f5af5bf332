//! Permutations of `0..M` and their composition.
use crate::group::map::{factorial, nth_permutation, points, Group};
use vstd::prelude::*;

verus! {

/// A permutation of `0..M`, as the images of `0, 1, ..., M - 1`.
#[derive(Debug, PartialEq, Eq)]
pub struct Perm<const M: usize>(pub [usize; M]);

/// The lexicographic rank of a permutation of `0..M`.
#[derive(Debug)]
pub struct PermId<const M: usize>(pub usize);

/// Every image lies in `0..M`.
pub open spec fn images_in_range<const M: usize>(p: Perm<M>) -> bool {
    forall|i: int| 0 <= i < M ==> #[trigger] p.0@[i] < M
}

impl<const M: usize> Perm<M> {
    /// The composition that first applies `other`, then `self`: the result
    /// maps `i` to `self[other[i]]`.
    pub fn chain(&self, other: &Self) -> (r: Self)
        requires
            images_in_range(*other),
        ensures
            forall|i: int| 0 <= i < M ==> #[trigger] r.0@[i] == self.0@[other.0@[i] as int],
    {
        let mut result = [0usize; M];
        let mut i: usize = 0;
        while i < M
            invariant
                i <= M,
                images_in_range(*other),
                forall|k: int| 0 <= k < i ==> #[trigger] result@[k] == self.0@[other.0@[k] as int],
            decreases M - i,
        {
            let x = other.0[i];
            result[i] = self.0[x];
            i = i + 1;
        }
        Perm(result)
    }
}

/// `r` maps `i` to `a[b[i]]`.
pub open spec fn is_chain<const M: usize>(r: Perm<M>, a: Perm<M>, b: Perm<M>) -> bool {
    forall|i: int| 0 <= i < M ==> #[trigger] r.0@[i] == a.0@[b.0@[i] as int]
}

/// The composition that applies `b`, then `a`.
pub open spec fn chain_of<const M: usize>(a: Perm<M>, b: Perm<M>) -> Perm<M> {
    choose|r: Perm<M>| #[trigger] is_chain(r, a, b)
}

impl<const M: usize> std::ops::Mul for Perm<M> {
    type Output = Self;

    fn mul(self, rhs: Self) -> (r: Self) {
        let r = self.chain(&rhs);
        proof {
            assert(is_chain(r, self, rhs));
            let spec_r = chain_of(self, rhs);
            assert(spec_r.0 =~= r.0);
        }
        r
    }
}

impl<const M: usize> vstd::std_specs::ops::MulSpecImpl for Perm<M> {
    open spec fn obeys_mul_spec() -> bool {
        true
    }

    open spec fn mul_req(self, rhs: Self) -> bool {
        images_in_range(rhs)
    }

    open spec fn mul_spec(self, rhs: Self) -> Self {
        chain_of(self, rhs)
    }
}

impl<const M: usize> PermId<M> {
    /// The permutation of this rank; ranks run from zero to `M! - 1`.
    pub fn perm(self) -> (r: Perm<M>)
        requires
            self.0 < factorial(M as nat),
        ensures
            r.0@ == nth_permutation(points(M as nat), self.0 as nat),
    {
        Perm(Group::<M>::group_element(self.0))
    }
}

} // verus!
