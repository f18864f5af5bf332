//! A disjoint set of half-open intervals, kept sorted and coalesced.
//!
//! A set is modelled by the sequence of key pairs of its intervals. Between
//! calls the sequence is sorted, every pair is non-empty, and consecutive pairs
//! are separated by a strict gap: touching intervals are always merged.
use crate::domain::{Domain, Measurable, UniversalInterval};
use crate::interval::{intersection_of, union_of, Interval};
use std::ops::Range;
use vstd::prelude::*;

verus! {

/// Every pair is non-empty and each pair ends strictly before the next begins.
pub open spec fn is_disjoint(s: Seq<(int, int)>) -> bool {
    &&& forall|i: int| 0 <= i < s.len() ==> #[trigger] s[i].0 < s[i].1
    &&& forall|i: int, j: int| #![trigger s[i], s[j]] 0 <= i < j < s.len() ==> s[i].1 < s[j].0
}

/// The point `x` lies in one of the pairs.
pub open spec fn covers(s: Seq<(int, int)>, x: int) -> bool {
    exists|i: int| #![trigger s[i]] 0 <= i < s.len() && s[i].0 <= x < s[i].1
}

/// Total length of the pairs.
pub open spec fn total_length(s: Seq<(int, int)>) -> int
    decreases s.len(),
{
    if s.len() == 0 {
        0
    } else {
        total_length(s.drop_last()) + (s.last().1 - s.last().0)
    }
}

/// The gaps between consecutive pairs.
pub open spec fn gaps(s: Seq<(int, int)>) -> Seq<(int, int)> {
    if s.len() == 0 {
        Seq::empty()
    } else {
        Seq::new((s.len() - 1) as nat, |i: int| (s[i].1, s[i + 1].0))
    }
}

/// The complement of the pairs within the domain `[inf, sup)`.
pub open spec fn complement(s: Seq<(int, int)>, inf: int, sup: int) -> Seq<(int, int)> {
    if s.len() == 0 {
        seq![(inf, sup)]
    } else {
        let lead: Seq<(int, int)> = if s[0].0 == inf {
            Seq::empty()
        } else {
            seq![(inf, s[0].0)]
        };
        let trail: Seq<(int, int)> = if s.last().1 == sup {
            Seq::empty()
        } else {
            seq![(s.last().1, sup)]
        };
        lead + gaps(s) + trail
    }
}

/// Each pair clipped to the filter, keeping the non-empty results in order.
pub open spec fn clip_all(s: Seq<(int, int)>, f: (int, int)) -> Seq<(int, int)>
    decreases s.len(),
{
    if s.len() == 0 {
        Seq::empty()
    } else {
        let rest = clip_all(s.drop_last(), f);
        match intersection_of(s.last(), f) {
            Some(p) => if p.0 < p.1 {
                rest.push(p)
            } else {
                rest
            },
            None => rest,
        }
    }
}

/// The pairs that share a stretch with the filter, unchanged and in order.
pub open spec fn keep_intersecting(s: Seq<(int, int)>, f: (int, int)) -> Seq<(int, int)>
    decreases s.len(),
{
    if s.len() == 0 {
        Seq::empty()
    } else {
        let rest = keep_intersecting(s.drop_last(), f);
        if intersection_of(s.last(), f) is Some {
            rest.push(s.last())
        } else {
            rest
        }
    }
}

/// The key of an interval's lower bound, or of its upper bound.
pub open spec fn bound_key<T: Domain>(r: Range<T>, by_end: bool) -> int {
    if by_end {
        r.end.key()
    } else {
        r.start.key()
    }
}

/// Replacing the pairs `l..h` of a disjoint sequence by one pair that spans
/// them and `[a, b)` keeps the sequence disjoint and adds exactly `[a, b)`
/// to what it covers. `lo` pairs begin below `a` and `hi` pairs end below `b`.
proof fn lemma_union_splice(
    s: Seq<(int, int)>,
    t: Seq<(int, int)>,
    a: int,
    b: int,
    lo: int,
    hi: int,
    l: int,
    h: int,
)
    requires
        is_disjoint(s),
        a < b,
        0 <= l <= lo <= hi <= h <= s.len(),
        l == lo || l == lo - 1,
        h == hi || h == hi + 1,
        forall|k: int| 0 <= k < lo ==> #[trigger] s[k].0 < a,
        forall|k: int| lo <= k < s.len() ==> #[trigger] s[k].0 >= a,
        forall|k: int| 0 <= k < hi ==> #[trigger] s[k].1 < b,
        forall|k: int| hi <= k < s.len() ==> #[trigger] s[k].1 >= b,
        l < lo ==> s[l].1 >= a,
        l == lo && lo > 0 ==> s[lo - 1].1 < a,
        h > hi ==> s[hi].0 <= b,
        h == hi && hi < s.len() ==> b < s[hi].0,
        t.len() == l + 1 + s.len() - h,
        forall|k: int| 0 <= k < l ==> #[trigger] t[k] == s[k],
        t[l] == (
            if l < lo {
                s[l].0
            } else {
                a
            },
            if h > hi {
                s[hi].1
            } else {
                b
            },
        ),
        forall|k: int| l < k < t.len() ==> #[trigger] t[k] == s[k - l - 1 + h],
    ensures
        is_disjoint(t),
        forall|x: int| #[trigger] covers(t, x) == (covers(s, x) || a <= x < b),
{
    let n = s.len() as int;
    let ms = t[l].0;
    let me = t[l].1;
    assert(ms <= a && b <= me);
    assert forall|i: int| 0 <= i < t.len() implies #[trigger] t[i].0 < t[i].1 by {
        if i > l {
            assert(s[i - l - 1 + h].0 < s[i - l - 1 + h].1);
        } else if i < l {
            assert(s[i].0 < s[i].1);
        }
    }
    assert forall|i: int, j: int| #![trigger t[i], t[j]] 0 <= i < j < t.len() implies t[i].1
        < t[j].0 by {
        if j < l {
            assert(s[i].1 < s[j].0);
        } else if i > l {
            assert(s[i - l - 1 + h].1 < s[j - l - 1 + h].0);
        } else if j == l {
            if l < lo {
                assert(s[i].1 < s[l].0);
            } else {
                assert(s[i].1 <= s[lo - 1].1) by {
                    if i < lo - 1 {
                        assert(s[i].1 < s[lo - 1].0);
                        assert(s[lo - 1].0 < s[lo - 1].1);
                    }
                }
            }
        } else if i == l {
            let jj = j - l - 1 + h;
            if h > hi {
                assert(s[hi].1 < s[jj].0);
            } else {
                assert(s[hi].0 <= s[jj].0) by {
                    if jj > hi {
                        assert(s[hi].1 < s[jj].0);
                        assert(s[hi].0 < s[hi].1);
                    }
                }
            }
        } else {
            let jj = j - l - 1 + h;
            assert(s[i].1 < s[jj].0);
        }
    }
    assert forall|x: int| #[trigger] covers(t, x) == (covers(s, x) || a <= x < b) by {
        if covers(t, x) {
            let k = choose|k: int| #![trigger t[k]] 0 <= k < t.len() && t[k].0 <= x < t[k].1;
            if k < l {
                assert(s[k].0 <= x < s[k].1);
            } else if k > l {
                assert(s[k - l - 1 + h].0 <= x < s[k - l - 1 + h].1);
            } else if x < a {
                assert(s[l].0 <= x < s[l].1);
            } else if x >= b {
                assert(s[hi].0 <= x < s[hi].1);
            }
        }
        if covers(s, x) {
            let k = choose|k: int| #![trigger s[k]] 0 <= k < n && s[k].0 <= x < s[k].1;
            if k < l {
                assert(t[k].0 <= x < t[k].1);
            } else if k >= h {
                assert(t[k - h + l + 1] == s[k]);
                assert(t[k - h + l + 1].0 <= x < t[k - h + l + 1].1);
            } else {
                assert(t[l].0 <= x < t[l].1);
            }
        }
        if a <= x < b {
            assert(t[l].0 <= x < t[l].1);
        }
    }
}

/// The length of a prefix of non-empty pairs grows with the prefix and is
/// never negative.
proof fn lemma_total_length_monotone(s: Seq<(int, int)>, i: int, j: int)
    requires
        forall|k: int| 0 <= k < s.len() ==> #[trigger] s[k].0 < s[k].1,
        0 <= i <= j <= s.len(),
    ensures
        0 <= total_length(s.subrange(0, i)) <= total_length(s.subrange(0, j)),
    decreases j,
{
    if j > 0 {
        assert(s.subrange(0, j).drop_last() =~= s.subrange(0, j - 1));
        assert(s[j - 1].0 < s[j - 1].1);
        if i < j {
            lemma_total_length_monotone(s, i, j - 1);
        } else {
            lemma_total_length_monotone(s, j - 1, j - 1);
        }
    }
}

/// Pushing a pair that begins after the last one ends keeps a sequence
/// disjoint.
proof fn lemma_push_disjoint(r: Seq<(int, int)>, p: (int, int))
    requires
        is_disjoint(r),
        p.0 < p.1,
        r.len() > 0 ==> r.last().1 < p.0,
    ensures
        is_disjoint(r.push(p)),
{
    let t = r.push(p);
    assert forall|i: int, j: int| #![trigger t[i], t[j]] 0 <= i < j < t.len() implies t[i].1
        < t[j].0 by {
        if j == r.len() && i < r.len() - 1 {
            assert(r[i].1 < r[r.len() - 1].0);
            assert(r[r.len() - 1].0 < r[r.len() - 1].1);
        } else if j < r.len() {
            assert(r[i].1 < r[j].0);
        }
    }
    assert forall|i: int| 0 <= i < t.len() implies #[trigger] t[i].0 < t[i].1 by {
        if i < r.len() {
            assert(r[i].0 < r[i].1);
        }
    }
}

/// Where each element of the complement comes from: an optional leading gap
/// from `inf`, the gaps between pairs, and an optional trailing gap to `sup`.
proof fn lemma_complement_index(s: Seq<(int, int)>, inf: int, sup: int)
    requires
        s.len() > 0,
    ensures
        ({
            let c = complement(s, inf, sup);
            let la: int = if s[0].0 == inf {
                0
            } else {
                1
            };
            let lb: int = if s.last().1 == sup {
                0
            } else {
                1
            };
            &&& c.len() == la + s.len() - 1 + lb
            &&& forall|k: int|
                0 <= k < c.len() ==> #[trigger] c[k] == if k < la {
                    (inf, s[0].0)
                } else if k < la + s.len() - 1 {
                    (s[k - la].1, s[k - la + 1].0)
                } else {
                    (s.last().1, sup)
                }
        }),
{
    let c = complement(s, inf, sup);
    let la: int = if s[0].0 == inf {
        0
    } else {
        1
    };
    let lead: Seq<(int, int)> = if s[0].0 == inf {
        Seq::empty()
    } else {
        seq![(inf, s[0].0)]
    };
    let trail: Seq<(int, int)> = if s.last().1 == sup {
        Seq::empty()
    } else {
        seq![(s.last().1, sup)]
    };
    assert(c == lead + gaps(s) + trail);
    assert forall|k: int| 0 <= k < c.len() implies #[trigger] c[k] == if k < la {
        (inf, s[0].0)
    } else if k < la + s.len() - 1 {
        (s[k - la].1, s[k - la + 1].0)
    } else {
        (s.last().1, sup)
    } by {
        if k < la {
            assert(c[k] == lead[k]);
        } else if k < la + s.len() - 1 {
            assert(c[k] == gaps(s)[k - la]);
        } else {
            assert(c[k] == trail[k - la - (s.len() - 1)]);
        }
    }
}

/// The complement of a disjoint sequence within `[inf, sup)` is disjoint.
proof fn lemma_complement_disjoint(s: Seq<(int, int)>, inf: int, sup: int)
    requires
        is_disjoint(s),
        inf < sup,
        forall|k: int| 0 <= k < s.len() ==> inf <= #[trigger] s[k].0 && s[k].1 <= sup,
    ensures
        is_disjoint(complement(s, inf, sup)),
{
    if s.len() > 0 {
        lemma_complement_index(s, inf, sup);
        let c = complement(s, inf, sup);
        let la: int = if s[0].0 == inf {
            0
        } else {
            1
        };
        let n = s.len() as int;
        assert forall|k: int| 0 <= k < c.len() implies #[trigger] c[k].0 < c[k].1 by {
            if k < la {
            } else if k < la + n - 1 {
                assert(s[k - la].1 < s[k - la + 1].0);
            } else {
                assert(s[n - 1].0 < s[n - 1].1);
            }
        }
        assert forall|i: int, j: int| #![trigger c[i], c[j]] 0 <= i < j < c.len() implies c[i].1
            < c[j].0 by {
            // every element ends at a pair's lower bound and begins at the
            // upper bound of an earlier pair
            let ie = if i < la {
                0
            } else if i < la + n - 1 {
                i - la + 1
            } else {
                n
            };
            let js = if j < la {
                -1
            } else if j < la + n - 1 {
                j - la
            } else {
                n - 1
            };
            assert(ie <= js);
            assert(s[ie].0 < s[ie].1);
            if ie < js {
                assert(s[ie].1 < s[js].0);
                assert(s[js].0 < s[js].1);
            }
        }
    }
}

/// Complementing twice within `[inf, sup)` gives back a disjoint sequence
/// whose points lie in that domain.
pub proof fn lemma_complement_involution(s: Seq<(int, int)>, inf: int, sup: int)
    requires
        is_disjoint(s),
        inf < sup,
        forall|k: int| 0 <= k < s.len() ==> inf <= #[trigger] s[k].0 && s[k].1 <= sup,
    ensures
        complement(complement(s, inf, sup), inf, sup) == s,
{
    let c = complement(s, inf, sup);
    let n = s.len() as int;
    if n == 0 {
        assert(gaps(c) =~= Seq::<(int, int)>::empty());
        assert(complement(c, inf, sup) =~= s);
    } else {
        lemma_complement_index(s, inf, sup);
        lemma_complement_disjoint(s, inf, sup);
        let la: int = if s[0].0 == inf {
            0
        } else {
            1
        };
        let lb: int = if s.last().1 == sup {
            0
        } else {
            1
        };
        assert(s[0].0 < s[0].1);
        assert(s[n - 1].0 < s[n - 1].1);
        if c.len() == 0 {
            assert(complement(c, inf, sup) =~= s);
        } else {
            lemma_complement_index(c, inf, sup);
            let d = complement(c, inf, sup);
            // the first element of c starts at inf exactly when s does not,
            // and its last one ends at sup exactly when s does not
            assert(c[0].0 == inf <==> la == 1) by {
                if la == 0 && n > 1 {
                    assert(s[0].1 < s[1].0);
                }
            }
            assert(c.last().1 == sup <==> lb == 1) by {
                if lb == 0 && n > 1 {
                    assert(s[n - 2].1 < s[n - 1].0);
                }
            }
            assert(d.len() == n);
            assert forall|k: int| 0 <= k < n implies #[trigger] d[k] == s[k] by {
                let lc: int = if la == 1 {
                    0
                } else {
                    1
                };
                if k >= lc && k < lc + c.len() - 1 {
                    let _ = c[k - lc];
                    let _ = c[k - lc + 1];
                }
            }
            assert(d =~= s);
        }
    }
}

/// Full negation is an involution on every valid set.
pub proof fn lemma_negation_involution<T: UniversalInterval>(set: &IntervalSet<T>)
    requires
        set.wf(),
    ensures
        complement(
            complement(set@, T::infimum_key(), T::supremum_key()),
            T::infimum_key(),
            T::supremum_key(),
        ) == set@,
{
    let s = set@;
    T::lemma_extremes_differ();
    assert forall|k: int| 0 <= k < s.len() implies T::infimum_key() <= #[trigger] s[k].0 && s[k].1
        <= T::supremum_key() by {
        T::lemma_extremes(set.intervals@[k].start);
        T::lemma_extremes(set.intervals@[k].end);
    }
    lemma_complement_involution(s, T::infimum_key(), T::supremum_key());
}

/// The covered length of a non-empty set is its envelope's length minus the
/// length of the gaps inside the envelope, and is never negative.
pub proof fn lemma_measure_within_bounds<T: Domain>(set: &IntervalSet<T>)
    requires
        set.wf(),
        set@.len() > 0,
    ensures
        total_length(set@) >= 0,
        (set@.last().1 - set@[0].0) - total_length(gaps(set@)) == total_length(set@),
{
    lemma_span_minus_gaps(set@);
    assert(set@.subrange(0, set@.len() as int) =~= set@);
    lemma_total_length_monotone(set@, 0, set@.len() as int);
}

/// The envelope of non-empty pairs minus their gaps is their total length.
proof fn lemma_span_minus_gaps(s: Seq<(int, int)>)
    requires
        s.len() > 0,
    ensures
        (s.last().1 - s[0].0) - total_length(gaps(s)) == total_length(s),
    decreases s.len(),
{
    let n = s.len() as int;
    if n == 1 {
        assert(gaps(s) =~= Seq::<(int, int)>::empty());
        assert(s.drop_last() =~= Seq::<(int, int)>::empty());
    } else {
        let t = s.drop_last();
        lemma_span_minus_gaps(t);
        assert(gaps(s).drop_last() =~= gaps(t));
        assert(gaps(s).last() == (s[n - 2].1, s[n - 1].0));
    }
}

/// A disjoint sequence is determined by the points it covers.
pub proof fn lemma_disjoint_canonical(s: Seq<(int, int)>, t: Seq<(int, int)>)
    requires
        is_disjoint(s),
        is_disjoint(t),
        forall|x: int| covers(s, x) == covers(t, x),
    ensures
        s == t,
    decreases s.len() + t.len(),
{
    if s.len() == 0 && t.len() == 0 {
        assert(s =~= t);
    } else if s.len() == 0 {
        assert(t[0].0 < t[0].1);
        assert(covers(t, t[0].0));
    } else if t.len() == 0 {
        assert(s[0].0 < s[0].1);
        assert(covers(s, s[0].0));
    } else {
        lemma_first_covered(s);
        lemma_first_covered(t);
        assert(covers(s, s[0].0));
        assert(covers(t, t[0].0));
        assert(s[0].0 == t[0].0);
        if s[0].1 < t[0].1 {
            assert(covers(t, s[0].1));
        }
        if t[0].1 < s[0].1 {
            assert(covers(s, t[0].1));
        }
        let s1 = s.drop_first();
        let t1 = t.drop_first();
        lemma_drop_first_covers(s);
        lemma_drop_first_covers(t);
        assert forall|x: int| covers(s1, x) == covers(t1, x) by {
            assert(covers(s1, x) == (covers(s, x) && x >= s[0].1));
            assert(covers(t1, x) == (covers(t, x) && x >= t[0].1));
        }
        lemma_disjoint_canonical(s1, t1);
        assert(s =~= t) by {
            assert forall|k: int| 0 <= k < s.len() implies s[k] == t[k] by {
                if k > 0 {
                    assert(s[k] == s1[k - 1]);
                    assert(t[k] == t1[k - 1]);
                }
            }
        }
    }
}

/// No point below the first pair of a disjoint sequence is covered, and no
/// point of the first pair's end.
proof fn lemma_first_covered(s: Seq<(int, int)>)
    requires
        is_disjoint(s),
        s.len() > 0,
    ensures
        forall|x: int| covers(s, x) ==> x >= s[0].0,
        !covers(s, s[0].1),
{
    assert forall|x: int| covers(s, x) implies x >= s[0].0 by {
        let k = choose|k: int| #![trigger s[k]] 0 <= k < s.len() && s[k].0 <= x < s[k].1;
        if k > 0 {
            assert(s[0].1 < s[k].0);
            assert(s[0].0 < s[0].1);
        }
    }
    if covers(s, s[0].1) {
        let k = choose|k: int| #![trigger s[k]] 0 <= k < s.len() && s[k].0 <= s[0].1 < s[k].1;
        if k > 0 {
            assert(s[0].1 < s[k].0);
        }
    }
}

/// Dropping the first pair removes exactly the points below its end.
proof fn lemma_drop_first_covers(s: Seq<(int, int)>)
    requires
        is_disjoint(s),
        s.len() > 0,
    ensures
        is_disjoint(s.drop_first()),
        forall|x: int| covers(s.drop_first(), x) == (covers(s, x) && x >= s[0].1),
{
    let s1 = s.drop_first();
    assert forall|i: int| 0 <= i < s1.len() implies #[trigger] s1[i].0 < s1[i].1 by {
        assert(s[i + 1].0 < s[i + 1].1);
    }
    assert forall|i: int, j: int| #![trigger s1[i], s1[j]] 0 <= i < j < s1.len() implies s1[i].1
        < s1[j].0 by {
        assert(s[i + 1].1 < s[j + 1].0);
    }
    assert forall|x: int| covers(s1, x) == (covers(s, x) && x >= s[0].1) by {
        if covers(s1, x) {
            let k = choose|k: int| #![trigger s1[k]] 0 <= k < s1.len() && s1[k].0 <= x < s1[k].1;
            assert(s[k + 1].0 <= x < s[k + 1].1);
            assert(s[0].1 < s[k + 1].0);
        }
        if covers(s, x) && x >= s[0].1 {
            let k = choose|k: int| #![trigger s[k]] 0 <= k < s.len() && s[k].0 <= x < s[k].1;
            assert(k > 0);
            assert(s1[k - 1].0 <= x < s1[k - 1].1);
        }
    }
}

/// Adding two intervals in either order leaves the same stored sequence.
pub proof fn lemma_union_order_irrelevant(
    s: Seq<(int, int)>,
    ab: Seq<(int, int)>,
    ba: Seq<(int, int)>,
    a: (int, int),
    b: (int, int),
)
    requires
        is_disjoint(ab),
        is_disjoint(ba),
        forall|x: int| #[trigger]
            covers(ab, x) == ((covers(s, x) || a.0 <= x < a.1) || b.0 <= x < b.1),
        forall|x: int| #[trigger]
            covers(ba, x) == ((covers(s, x) || b.0 <= x < b.1) || a.0 <= x < a.1),
    ensures
        ab == ba,
{
    assert forall|x: int| covers(ab, x) == covers(ba, x) by {
        assert(covers(ab, x) == ((covers(s, x) || a.0 <= x < a.1) || b.0 <= x < b.1));
        assert(covers(ba, x) == ((covers(s, x) || b.0 <= x < b.1) || a.0 <= x < a.1));
    }
    lemma_disjoint_canonical(ab, ba);
}

/// Clipping to a filter keeps exactly the covered points inside the filter.
pub proof fn lemma_clip_all_covers(s: Seq<(int, int)>, f: (int, int), x: int)
    ensures
        covers(clip_all(s, f), x) == (covers(s, x) && f.0 <= x < f.1),
    decreases s.len(),
{
    if s.len() > 0 {
        let rest = s.drop_last();
        let last = s.last();
        lemma_clip_all_covers(rest, f, x);
        let r = clip_all(rest, f);
        let inside = last.0 <= x < last.1 && f.0 <= x < f.1;
        // the last pair contributes exactly its points inside the filter
        assert(covers(clip_all(s, f), x) == (covers(r, x) || inside)) by {
            let c = clip_all(s, f);
            match intersection_of(last, f) {
                Some(p) => {
                    if p.0 < p.1 {
                        assert(c == r.push(p));
                        if covers(c, x) {
                            let k = choose|k: int| #![trigger c[k]] 0 <= k < c.len() && c[k].0 <= x < c[k].1;
                            if k < r.len() {
                                assert(r[k] == c[k]);
                            }
                        }
                        if covers(r, x) {
                            let k = choose|k: int| #![trigger r[k]] 0 <= k < r.len() && r[k].0 <= x < r[k].1;
                            assert(c[k] == r[k]);
                        }
                        if inside {
                            assert(c[r.len() as int] == p);
                        }
                    } else {
                        assert(c == r);
                    }
                },
                None => {
                    assert(c == r);
                },
            }
        }
        assert(covers(s, x) == (covers(rest, x) || last.0 <= x < last.1)) by {
            if covers(s, x) {
                let k = choose|k: int| #![trigger s[k]] 0 <= k < s.len() && s[k].0 <= x < s[k].1;
                if k < rest.len() {
                    assert(rest[k] == s[k]);
                }
            }
            if covers(rest, x) {
                let k = choose|k: int| #![trigger rest[k]] 0 <= k < rest.len() && rest[k].0 <= x < rest[k].1;
                assert(s[k] == rest[k]);
            }
            if last.0 <= x < last.1 {
                assert(s[s.len() - 1] == last);
            }
        }
    }
}

/// Disjoint set of half-open intervals over an ordered domain.
#[derive(Debug, PartialEq, Eq)]
pub struct IntervalSet<T> {
    pub intervals: Vec<Range<T>>,
}

impl<T: Domain> View for IntervalSet<T> {
    type V = Seq<(int, int)>;

    open spec fn view(&self) -> Seq<(int, int)> {
        self.intervals@.map_values(|r: Range<T>| (r.start.key(), r.end.key()))
    }
}

/// Number of leading intervals whose chosen bound lies below `target`. The
/// chosen bounds increase along the vector, so every later one is at or above
/// `target`.
fn count_below<T: Domain>(intervals: &Vec<Range<T>>, target: &T, by_end: bool) -> (r: usize)
    requires
        forall|i: int, j: int|
            #![trigger intervals@[i], intervals@[j]]
            0 <= i < j < intervals.len() ==> bound_key(intervals@[i], by_end) < bound_key(
                intervals@[j],
                by_end,
            ),
    ensures
        r <= intervals.len(),
        forall|k: int| 0 <= k < r ==> #[trigger] bound_key(intervals@[k], by_end) < target.key(),
        forall|k: int|
            r <= k < intervals.len() ==> #[trigger] bound_key(intervals@[k], by_end)
                >= target.key(),
{
    let mut lo: usize = 0;
    let mut hi: usize = intervals.len();
    while lo < hi
        invariant
            lo <= hi <= intervals.len(),
            forall|i: int, j: int|
                #![trigger intervals@[i], intervals@[j]]
                0 <= i < j < intervals.len() ==> bound_key(intervals@[i], by_end) < bound_key(
                    intervals@[j],
                    by_end,
                ),
            forall|k: int| 0 <= k < lo ==> #[trigger] bound_key(intervals@[k], by_end) < target.key(),
            forall|k: int|
                hi <= k < intervals.len() ==> #[trigger] bound_key(intervals@[k], by_end)
                    >= target.key(),
        decreases hi - lo,
    {
        let mid = lo + (hi - lo) / 2;
        let b = if by_end {
            intervals[mid].end
        } else {
            intervals[mid].start
        };
        if b.below(target) {
            proof {
                assert forall|k: int| 0 <= k <= mid implies #[trigger] bound_key(
                    intervals@[k],
                    by_end,
                ) < target.key() by {
                    if k < mid {
                        assert(bound_key(intervals@[k], by_end) < bound_key(
                            intervals@[mid as int],
                            by_end,
                        ));
                    }
                }
            }
            lo = mid + 1;
        } else {
            proof {
                assert forall|k: int| mid <= k < intervals.len() implies #[trigger] bound_key(
                    intervals@[k],
                    by_end,
                ) >= target.key() by {
                    if k > mid {
                        assert(bound_key(intervals@[mid as int], by_end) < bound_key(
                            intervals@[k],
                            by_end,
                        ));
                    }
                }
            }
            hi = mid;
        }
    }
    lo
}

impl<T: Domain> IntervalSet<T> {
    /// The set's invariant: sorted, non-empty, pairwise separated intervals.
    pub open spec fn wf(&self) -> bool {
        is_disjoint(self@)
    }

    /// Both the lower and the upper bounds increase along the vector.
    proof fn lemma_bounds_increase(&self)
        requires
            self.wf(),
        ensures
            forall|i: int, j: int|
                #![trigger self.intervals@[i], self.intervals@[j]]
                0 <= i < j < self.intervals.len() ==> bound_key(self.intervals@[i], false)
                    < bound_key(self.intervals@[j], false) && bound_key(self.intervals@[i], true)
                    < bound_key(self.intervals@[j], true),
    {
        assert forall|i: int, j: int|
            #![trigger self.intervals@[i], self.intervals@[j]]
            0 <= i < j < self.intervals.len() implies bound_key(self.intervals@[i], false)
            < bound_key(self.intervals@[j], false) && bound_key(self.intervals@[i], true)
            < bound_key(self.intervals@[j], true) by {
            assert(self@[i].0 < self@[i].1);
            assert(self@[j].0 < self@[j].1);
            assert(self@[i].1 < self@[j].0);
        }
    }

    /// An empty set.
    pub fn new() -> (r: Self)
        ensures
            r.wf(),
            r@ == Seq::<(int, int)>::empty(),
    {
        IntervalSet { intervals: Vec::new() }
    }

    /// Adds the points of `interval`, merging every stored interval that it
    /// overlaps or touches. An empty `interval` changes nothing.
    pub fn union(&mut self, interval: Range<T>)
        requires
            old(self).wf(),
        ensures
            final(self).wf(),
            forall|x: int| #[trigger]
                covers(final(self)@, x) == (covers(old(self)@, x) || interval.start.key() <= x
                    < interval.end.key()),
            interval.end.key() <= interval.start.key() ==> final(self)@ == old(self)@,
    {
        let ghost s = self@;
        let ghost a = interval.start.key();
        let ghost b = interval.end.key();
        if interval.end.at_most(&interval.start) {
            return ;
        }
        if self.intervals.len() == 0 {
            self.intervals.push(interval);
            proof {
                assert forall|x: int| #[trigger] covers(self@, x) == (covers(s, x) || a <= x < b) by {
                    if a <= x < b {
                        assert(self@[0].0 <= x < self@[0].1);
                    }
                }
            }
            return ;
        }
        proof {
            self.lemma_bounds_increase();
        }
        let n = self.intervals.len();
        let index0 = count_below(&self.intervals, &interval.start, false);
        let index1 = count_below(&self.intervals, &interval.end, true);
        if index0 > index1 {
            proof {
                assert(bound_key(self.intervals@[index1 as int], false) < a);
                assert(bound_key(self.intervals@[index1 as int], true) >= b);
                assert forall|x: int| #[trigger] covers(self@, x) == (covers(s, x) || a <= x < b) by {
                    if a <= x < b {
                        assert(s[index1 as int].0 <= x < s[index1 as int].1);
                    }
                }
            }
            return ;
        }
        // Either the new interval stands alone, or it joins its left
        // neighbour, its right neighbour, or both; the left is tried first.

        let mut merged = Range { start: interval.start, end: interval.end };
        let mut keep_before: usize = index0;
        let mut keep_after: usize = index1;
        if index0 > 0 {
            if let Some(m) = self.intervals[index0 - 1].interval_union(&interval) {
                merged = m;
                keep_before = index0 - 1;
                if index1 < n {
                    if let Some(all) = self.intervals[index1].interval_union(&merged) {
                        merged = all;
                        keep_after = index1 + 1;
                    }
                }
            }
        }
        if keep_before == index0 && index1 < n {
            if let Some(m) = self.intervals[index1].interval_union(&interval) {
                merged = m;
                keep_after = index1 + 1;
            }
        }
        proof {
            assert forall|k: int| 0 <= k < index0 implies #[trigger] s[k].0 < a by {
                assert(bound_key(self.intervals@[k], false) < a);
            }
            assert forall|k: int| index0 <= k < n implies #[trigger] s[k].0 >= a by {
                assert(bound_key(self.intervals@[k], false) >= a);
            }
            assert forall|k: int| 0 <= k < index1 implies #[trigger] s[k].1 < b by {
                assert(bound_key(self.intervals@[k], true) < b);
            }
            assert forall|k: int| index1 <= k < n implies #[trigger] s[k].1 >= b by {
                assert(bound_key(self.intervals@[k], true) >= b);
            }
            if index0 > 0 {
                assert(s[index0 - 1].0 < a);
                assert(s[index0 - 1].1 < b);
            }
            if index1 < n {
                assert(s[index1 as int].0 >= a);
                assert(s[index1 as int].1 >= b);
            }
        }
        let mut result: Vec<Range<T>> = Vec::new();
        let mut i: usize = 0;
        while i < keep_before
            invariant
                s == self@,
                keep_before <= index0 <= n == self.intervals.len(),
                result.len() == i,
                i <= keep_before,
                forall|k: int| 0 <= k < i ==> #[trigger] result@[k].span() == s[k],
            decreases keep_before - i,
        {
            result.push(Range { start: self.intervals[i].start, end: self.intervals[i].end });
            i = i + 1;
        }
        result.push(merged);
        let mut j: usize = keep_after;
        while j < n
            invariant
                s == self@,
                keep_before <= index0 <= index1 <= keep_after <= n == self.intervals.len(),
                keep_after <= j <= n,
                result.len() == keep_before + 1 + (j - keep_after),
                forall|k: int| 0 <= k < keep_before ==> #[trigger] result@[k].span() == s[k],
                result@[keep_before as int] == merged,
                forall|k: int|
                    keep_before < k < result.len() ==> #[trigger] result@[k].span() == s[k
                        - keep_before - 1 + keep_after],
            decreases n - j,
        {
            result.push(Range { start: self.intervals[j].start, end: self.intervals[j].end });
            j = j + 1;
        }
        self.intervals = result;
        proof {
            let t = self@;
            assert forall|k: int| 0 <= k < keep_before implies #[trigger] t[k] == s[k] by {
                assert(result@[k].span() == s[k]);
            }
            assert forall|k: int| keep_before < k < t.len() implies #[trigger] t[k] == s[k
                - keep_before - 1 + keep_after] by {
                assert(result@[k].span() == s[k - keep_before - 1 + keep_after]);
            }
            lemma_union_splice(
                s,
                t,
                a,
                b,
                index0 as int,
                index1 as int,
                keep_before as int,
                keep_after as int,
            );
        }
    }

    /// Clips every interval to `interval`, dropping those that end up empty.
    pub fn intersect(&mut self, interval: Range<T>)
        requires
            old(self).wf(),
        ensures
            final(self).wf(),
            final(self)@ == clip_all(old(self)@, interval.span()),
            forall|x: int| #[trigger]
                covers(final(self)@, x) == (covers(old(self)@, x) && interval.start.key() <= x
                    < interval.end.key()),
    {
        let ghost s = self@;
        let ghost f = interval.span();
        let mut out = IntervalSet::new();
        let mut i: usize = 0;
        while i < self.intervals.len()
            invariant
                s == self@,
                f == interval.span(),
                self.wf(),
                i <= s.len(),
                out.wf(),
                out@ == clip_all(s.subrange(0, i as int), f),
                out@.len() > 0 ==> i > 0 && out@.last().1 <= s[i - 1].1,
            decreases s.len() - i,
        {
            let ghost prefix = s.subrange(0, i + 1);
            proof {
                assert(prefix.drop_last() =~= s.subrange(0, i as int));
                assert(prefix.last() == s[i as int]);
                assert(self.intervals@[i as int].span() == s[i as int]);
                if i > 0 {
                    assert(s[i - 1].1 < s[i as int].0);
                }
            }
            if let Some(p) = self.intervals[i].interval_intersection(&interval) {
                if p.start.below(&p.end) {
                    let ghost before = out@;
                    proof {
                        lemma_push_disjoint(out@, p.span());
                    }
                    out.intervals.push(p);
                    proof {
                        assert(out@ =~= before.push(p.span()));
                    }
                }
            }
            proof {
                assert(out@ == clip_all(prefix, f));
            }
            i = i + 1;
        }
        proof {
            assert(s.subrange(0, s.len() as int) =~= s);
            assert forall|x: int| #[trigger] covers(out@, x) == (covers(s, x) && f.0 <= x < f.1) by {
                lemma_clip_all_covers(s, f, x);
            }
        }
        self.intervals = out.intervals;
    }

    /// Keeps, unchanged, the intervals that share a stretch with `interval`.
    pub fn retain_intersecting(&mut self, interval: Range<T>)
        requires
            old(self).wf(),
        ensures
            final(self).wf(),
            final(self)@ == keep_intersecting(old(self)@, interval.span()),
    {
        let ghost s = self@;
        let ghost f = interval.span();
        let mut out = IntervalSet::new();
        let mut i: usize = 0;
        while i < self.intervals.len()
            invariant
                s == self@,
                f == interval.span(),
                self.wf(),
                i <= s.len(),
                out.wf(),
                out@ == keep_intersecting(s.subrange(0, i as int), f),
                out@.len() > 0 ==> i > 0 && out@.last().1 <= s[i - 1].1,
            decreases s.len() - i,
        {
            let ghost prefix = s.subrange(0, i + 1);
            proof {
                assert(prefix.drop_last() =~= s.subrange(0, i as int));
                assert(prefix.last() == s[i as int]);
                assert(self.intervals@[i as int].span() == s[i as int]);
                if i > 0 {
                    assert(s[i - 1].1 < s[i as int].0);
                }
            }
            let hit = self.intervals[i].interval_intersection(&interval);
            proof {
                assert(hit is Some <==> intersection_of(s[i as int], f) is Some);
            }
            if hit.is_some() {
                let kept = Range { start: self.intervals[i].start, end: self.intervals[i].end };
                let ghost before = out@;
                proof {
                    assert(s[i as int].0 < s[i as int].1);
                    lemma_push_disjoint(out@, kept.span());
                }
                out.intervals.push(kept);
                proof {
                    assert(out@ =~= before.push(kept.span()));
                }
            }
            proof {
                assert(out@ == keep_intersecting(prefix, f));
            }
            i = i + 1;
        }
        proof {
            assert(s.subrange(0, s.len() as int) =~= s);
        }
        self.intervals = out.intervals;
    }

    /// The envelope from the first interval's start to the last one's end,
    /// gaps included; `None` for an empty set.
    pub fn bounds(&self) -> (r: Option<Range<T>>)
        ensures
            r is Some <==> self@.len() > 0,
            r is Some ==> r->0.span() == (self@[0].0, self@.last().1),
    {
        let count = self.intervals.len();
        if count > 0 {
            Some(Range { start: self.intervals[0].start, end: self.intervals[count - 1].end })
        } else {
            None
        }
    }

    /// The interval that holds `value`, if any.
    pub fn containing_interval(&self, value: &T) -> (r: Option<Range<T>>)
        requires
            self.wf(),
        ensures
            r is Some <==> covers(self@, value.key()),
            r is Some ==> exists|i: int|
                0 <= i < self@.len() && #[trigger] self@[i] == r->0.span() && self@[i].0
                    <= value.key() < self@[i].1,
    {
        proof {
            self.lemma_bounds_increase();
        }
        let index = count_below(&self.intervals, value, true);
        if index < self.intervals.len() {
            let a = &self.intervals[index];
            if a.start.at_most(value) && value.below(&a.end) {
                let r = Range { start: a.start, end: a.end };
                proof {
                    assert(self@[index as int] == r.span());
                    assert(self@[index as int].0 <= value.key() < self@[index as int].1);
                }
                return Some(r);
            }
        }
        proof {
            assert forall|i: int| 0 <= i < self@.len() implies !(#[trigger] self@[i].0 <= value.key()
                < self@[i].1) by {
                if i < index {
                    assert(bound_key(self.intervals@[i], true) < value.key());
                } else if i > index {
                    assert(self@[index as int].1 < self@[i].0);
                    assert(bound_key(self.intervals@[index as int], true) >= value.key());
                }
            }
        }
        None
    }

    /// Whether `value` lies in one of the intervals.
    pub fn contains(&self, value: &T) -> (r: bool)
        requires
            self.wf(),
        ensures
            r == covers(self@, value.key()),
    {
        self.containing_interval(value).is_some()
    }

    /// The gaps between consecutive intervals, without the unbounded parts
    /// before the first and after the last.
    pub fn negation_within_bounds(&self) -> (r: Self)
        requires
            self.wf(),
        ensures
            r.wf(),
            r@ == gaps(self@),
    {
        let count = self.intervals.len();
        let mut negated: Vec<Range<T>> = Vec::new();
        if count > 0 {
            let mut i: usize = 0;
            while i + 1 < count
                invariant
                    self.wf(),
                    count == self.intervals.len(),
                    count > 0,
                    i + 1 <= count,
                    negated.len() == i,
                    forall|k: int|
                        0 <= k < i ==> #[trigger] negated@[k].span() == (
                            self@[k].1,
                            self@[k + 1].0,
                        ),
                decreases count - i,
            {
                negated.push(Range { start: self.intervals[i].end, end: self.intervals[i + 1].start });
                i = i + 1;
            }
        }
        let r = IntervalSet { intervals: negated };
        proof {
            assert forall|k: int| 0 <= k < r@.len() implies #[trigger] r@[k] == gaps(self@)[k] by {
                assert(negated@[k].span() == (self@[k].1, self@[k + 1].0));
            }
            assert(r@ =~= gaps(self@));
            assert forall|i: int, j: int|
                #![trigger r@[i], r@[j]]
                0 <= i < j < r@.len() implies r@[i].1 < r@[j].0 by {
                assert(self@[i + 1].0 < self@[i + 1].1);
                if i + 1 < j {
                    assert(self@[i + 1].1 < self@[j].0);
                }
            }
        }
        r
    }
}

impl<T: Measurable> IntervalSet<T> {
    /// Total covered length. The total must be representable in the domain.
    pub fn measure(&self) -> (r: T)
        requires
            self.wf(),
            T::fits(total_length(self@)),
        ensures
            r.key() == total_length(self@),
            r.key() >= 0,
    {
        let ghost s = self@;
        let mut total = T::zero();
        let mut i: usize = 0;
        while i < self.intervals.len()
            invariant
                s == self@,
                self.wf(),
                T::fits(total_length(s)),
                i <= s.len(),
                total.key() == total_length(s.subrange(0, i as int)),
            decreases s.len() - i,
        {
            proof {
                assert(s.subrange(0, i + 1).drop_last() =~= s.subrange(0, i as int));
                assert(s.subrange(0, s.len() as int) =~= s);
                lemma_total_length_monotone(s, i as int, i + 1);
                lemma_total_length_monotone(s, i + 1, s.len() as int);
                assert(s[i as int].0 < s[i as int].1);
                T::lemma_fits(s[i as int].1 - s[i as int].0, total_length(s));
                T::lemma_fits(total_length(s.subrange(0, i + 1)), total_length(s));
            }
            let length = self.intervals[i].end.minus(self.intervals[i].start);
            total = total.plus(length);
            i = i + 1;
        }
        proof {
            assert(s.subrange(0, s.len() as int) =~= s);
            lemma_total_length_monotone(s, 0, s.len() as int);
        }
        total
    }
}

impl<T: UniversalInterval> IntervalSet<T> {
    /// Complement within the whole domain. The complement of an empty set is
    /// the universal interval; no gap is emitted before a first interval that
    /// starts at the domain's least value, nor after a last one that ends at
    /// its greatest.
    pub fn negation(&self) -> (r: Self)
        requires
            self.wf(),
        ensures
            r.wf(),
            r@ == complement(self@, T::infimum_key(), T::supremum_key()),
    {
        let ghost s = self@;
        let ghost inf = T::infimum_key();
        let ghost sup = T::supremum_key();
        proof {
            T::lemma_extremes_differ();
            assert forall|k: int| 0 <= k < s.len() implies inf <= #[trigger] s[k].0 && s[k].1
                <= sup by {
                T::lemma_extremes(self.intervals@[k].start);
                T::lemma_extremes(self.intervals@[k].end);
            }
            lemma_complement_disjoint(s, inf, sup);
        }
        let count = self.intervals.len();
        if count > 0 {
            proof {
                lemma_complement_index(s, inf, sup);
            }
            let mut negated: Vec<Range<T>> = Vec::new();
            if !self.intervals[0].start.is_infimum() {
                negated.push(Range { start: T::infimum(), end: self.intervals[0].start });
            }
            let ghost la = negated.len() as int;
            let mut i: usize = 0;
            while i + 1 < count
                invariant
                    s == self@,
                    count == s.len(),
                    count > 0,
                    i + 1 <= count,
                    la == (if s[0].0 == inf {
                        0int
                    } else {
                        1int
                    }),
                    negated.len() == la + i,
                    la == 1 ==> negated@[0].span() == (inf, s[0].0),
                    forall|k: int|
                        0 <= k < i ==> #[trigger] negated@[la + k].span() == (
                            s[k].1,
                            s[k + 1].0,
                        ),
                decreases count - i,
            {
                negated.push(Range { start: self.intervals[i].end, end: self.intervals[i + 1].start });
                i = i + 1;
            }
            if !self.intervals[count - 1].end.is_supremum() {
                negated.push(Range { start: self.intervals[count - 1].end, end: T::supremum() });
            }
            let r = IntervalSet { intervals: negated };
            proof {
                let c = complement(s, inf, sup);
                assert forall|k: int| 0 <= k < r@.len() implies #[trigger] r@[k] == c[k] by {
                    if k >= la && k < la + count - 1 {
                        assert(negated@[la + (k - la)].span() == (s[k - la].1, s[k - la + 1].0));
                    }
                }
                assert(r@ =~= c);
            }
            r
        } else {
            let r = IntervalSet { intervals: vec![T::universal_interval()] };
            proof {
                assert(r@ =~= complement(s, inf, sup));
            }
            r
        }
    }
}

impl<T: Domain> Default for IntervalSet<T> {
    fn default() -> (r: Self)
        ensures
            r.wf(),
            r@ == Seq::<(int, int)>::empty(),
    {
        Self::new()
    }
}

} // verus!
