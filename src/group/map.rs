//! The symmetric group on `M` points, with elements numbered by their rank
//! in lexicographic order.
use vstd::arithmetic::div_mod::{lemma_div_denominator, lemma_mod_pos_bound};
use vstd::prelude::*;

verus! {

/// A permutation of `0..M`, as the images of `0, 1, ..., M - 1`.
pub type GroupElement<const M: usize> = [usize; M];

/// The symmetric group on `M` points.
pub struct Group<const M: usize>;

pub open spec fn factorial(n: nat) -> nat
    decreases n,
{
    if n == 0 {
        1
    } else {
        n * factorial((n - 1) as nat)
    }
}

/// The points `0..m` in order.
pub open spec fn points(m: nat) -> Seq<usize> {
    Seq::new(m, |i: int| i as usize)
}

/// The permutation of `elems` of lexicographic rank `rank`: its first item is
/// the one at position `(rank / (n - 1)!) % n` among `n` remaining items, and
/// the rest follows in the same way from the items that remain.
pub open spec fn nth_permutation(elems: Seq<usize>, rank: nat) -> Seq<usize>
    decreases elems.len(),
{
    if elems.len() == 0 {
        Seq::empty()
    } else {
        let d = ((rank / factorial((elems.len() - 1) as nat)) % elems.len()) as int;
        seq![elems[d]] + nth_permutation(elems.remove(d), rank)
    }
}

pub proof fn lemma_factorial_positive(n: nat)
    ensures
        factorial(n) >= 1,
    decreases n,
{
    if n > 0 {
        lemma_factorial_positive((n - 1) as nat);
        assert(n * factorial((n - 1) as nat) >= 1) by (nonlinear_arith)
            requires
                n >= 1,
                factorial((n - 1) as nat) >= 1,
        ;
    }
}

impl<const M: usize> Group<M> {
    /// The identity permutation.
    pub fn identity() -> (r: GroupElement<M>)
        ensures
            r@ == points(M as nat),
    {
        let mut result = [0usize; M];
        let mut i: usize = 0;
        while i < M
            invariant
                i <= M,
                forall|k: int| 0 <= k < i ==> #[trigger] result@[k] == k as usize,
            decreases M - i,
        {
            result[i] = i;
            i = i + 1;
        }
        assert(result@ =~= points(M as nat));
        result
    }

    /// The permutation of lexicographic rank `id`; ranks run from zero to
    /// `M! - 1`.
    pub fn group_element(id: usize) -> (r: GroupElement<M>)
        requires
            id < factorial(M as nat),
        ensures
            r@ == nth_permutation(points(M as nat), id as nat),
    {
        // digits of `id` in the factorial number system, least significant
        // first: digit `k` is `(id / k!) % (k + 1)`
        let mut factoriadic: Vec<usize> = vec![0];
        let mut rest = id;
        proof {
            lemma_factorial_positive(0);
            assert(factorial(1) == 1);
        }
        while factoriadic.len() < M
            invariant
                1 <= factoriadic.len(),
                M >= 1 ==> factoriadic.len() <= M,
                rest == id as nat / factorial(factoriadic.len() as nat),
                forall|k: int|
                    0 <= k < factoriadic.len() ==> #[trigger] factoriadic@[k] == (id as nat
                        / factorial(k as nat)) % (k + 1) as nat,
            decreases M - factoriadic.len(),
        {
            let base = factoriadic.len() + 1;
            let ghost len = factoriadic.len() as nat;
            proof {
                lemma_factorial_positive(len);
                lemma_div_denominator(id as int, factorial(len) as int, base as int);
                assert(factorial(len) * base == factorial((len + 1) as nat)) by (nonlinear_arith)
                    requires
                        base == len + 1,
                        factorial((len + 1) as nat) == (len + 1) * factorial(len),
                ;
            }
            factoriadic.push(rest % base);
            rest = rest / base;
        }
        let mut elements: Vec<usize> = Vec::new();
        let mut j: usize = 0;
        while j < M
            invariant
                j <= M,
                elements@ == points(j as nat),
            decreases M - j,
        {
            elements.push(j);
            proof {
                assert(elements@ =~= points((j + 1) as nat));
            }
            j = j + 1;
        }
        let mut result = [0usize; M];
        let mut i: usize = 0;
        while i < M
            invariant
                i <= M,
                M >= 1 ==> factoriadic.len() == M,
                forall|k: int|
                    0 <= k < factoriadic.len() ==> #[trigger] factoriadic@[k] == (id as nat
                        / factorial(k as nat)) % (k + 1) as nat,
                elements.len() == M - i,
                result@.subrange(0, i as int) + nth_permutation(elements@, id as nat)
                    == nth_permutation(points(M as nat), id as nat),
            decreases M - i,
        {
            let k = M - 1 - i;
            let d = factoriadic[k];
            proof {
                lemma_factorial_positive(k as nat);
                lemma_mod_pos_bound((id as nat / factorial(k as nat)) as int, (k + 1) as int);
            }
            let ghost before = elements@;
            let ghost done = result@.subrange(0, i as int);
            let item = elements.remove(d);
            result[i] = item;
            proof {
                assert(nth_permutation(before, id as nat) == seq![item] + nth_permutation(
                    elements@,
                    id as nat,
                ));
                assert(result@.subrange(0, i + 1) =~= done + seq![item]);
                assert(done + seq![item] + nth_permutation(elements@, id as nat) =~= done + (
                seq![item] + nth_permutation(elements@, id as nat)));
            }
            i = i + 1;
        }
        assert(result@.subrange(0, M as int) =~= result@);
        assert(nth_permutation(elements@, id as nat) =~= Seq::<usize>::empty());
        assert(result@.subrange(0, M as int) + Seq::<usize>::empty() =~= result@);
        result
    }
}

} // verus!
