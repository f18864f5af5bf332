use interval_kit::permutations::{Perm, PermId};

#[test]
fn permutations_test1() {
    assert_eq!(Perm([0]), PermId::<1>(0).perm());
}

#[test]
fn permutations_test2() {
    assert_eq!(Perm([0, 1]), PermId::<2>(0).perm());
    assert_eq!(Perm([1, 0]), PermId::<2>(1).perm());
}

#[test]
fn permutations_test3() {
    assert_eq!(Perm([0, 1, 2]), PermId::<3>(0).perm());
    assert_eq!(Perm([0, 2, 1]), PermId::<3>(1).perm());
    assert_eq!(Perm([1, 0, 2]), PermId::<3>(2).perm());
    assert_eq!(Perm([1, 2, 0]), PermId::<3>(3).perm());
    assert_eq!(Perm([2, 0, 1]), PermId::<3>(4).perm());
    assert_eq!(Perm([2, 1, 0]), PermId::<3>(5).perm());
}

#[test]
fn test2_chain() {
    let e = Perm([0, 1]);
    let a = Perm([1, 0]);
    assert_eq!(e, e.chain(&e));
    assert_eq!(a, e.chain(&a));
    assert_eq!(a, a.chain(&e));
    assert_eq!(e, a.chain(&a));
}

#[test]
fn test3_chain() {
    let e = Perm([0, 1, 2]);
    let f = Perm([0, 2, 1]);
    let fr = Perm([1, 0, 2]);
    let r = Perm([1, 2, 0]);
    let rr = Perm([2, 0, 1]);
    let y = Perm([2, 1, 0]);
    assert_eq!(e, f.chain(&f));
    assert_eq!(e, fr.chain(&fr));
    assert_eq!(e, y.chain(&y));
    assert_eq!(e, r.chain(&rr));
    assert_eq!(e, rr.chain(&r));
    assert_eq!(rr, r.chain(&r));
    assert_eq!(r, rr.chain(&rr));
    assert_eq!(fr, r.chain(&f));
    // assert_eq!(fr, f.chain(&r));
    assert_eq!(e, rr.chain(&rr).chain(&rr));
    assert_eq!(e, r.chain(&r).chain(&r));
}

#[test]
fn ranks_of_four_points() {
    assert_eq!(Perm([0, 1, 2, 3]), PermId::<4>(0).perm());
    assert_eq!(Perm([3, 2, 1, 0]), PermId::<4>(23).perm());
    assert_eq!(Perm([1, 0, 3, 2]), PermId::<4>(7).perm());
}

#[test]
fn composing_with_the_operator() {
    let r = Perm([1, 2, 0]);
    let f = Perm([0, 2, 1]);
    assert_eq!(r * f, Perm([1, 0, 2]));
    assert_eq!(Perm([1, 2, 0]) * Perm([1, 2, 0]), Perm([2, 0, 1]));
}
