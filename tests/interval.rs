use interval_kit::interval::{Interval, IntervalExt};

#[test]
fn abab() {
    let a = 0..2;
    let b = 1..3;
    assert_eq!(a.interval_union(&b), Some(0..3));
    assert_eq!(b.interval_union(&a), Some(0..3));
    assert_eq!(a.interval_intersection(&b), Some(1..2));
    assert_eq!(b.interval_intersection(&a), Some(1..2));
    assert!(a.overlaps(&b));
    assert!(a.touches(&b));
    assert!(!a.dominates(&b));
    assert!(!a.dominates_or_is_dominated_by(&b));
    assert!(b.overlaps(&a));
    assert!(b.touches(&a));
    assert!(!b.dominates(&a));
    assert!(!b.dominates_or_is_dominated_by(&a));
}
#[test]
fn abba() {
    let a = 0..3;
    let b = 1..2;
    assert_eq!(a.interval_union(&b), Some(0..3));
    assert_eq!(b.interval_union(&a), Some(0..3));
    assert_eq!(a.interval_intersection(&b), Some(1..2));
    assert_eq!(b.interval_intersection(&a), Some(1..2));
    assert!(a.overlaps(&b));
    assert!(a.touches(&b));
    assert!(a.dominates(&b));
    assert!(a.dominates_or_is_dominated_by(&b));
    assert!(b.overlaps(&a));
    assert!(b.touches(&a));
    assert!(!b.dominates(&a));
    assert!(b.dominates_or_is_dominated_by(&a));
}
#[test]
fn aabb() {
    let a = 0..1;
    let b = 2..3;
    assert_eq!(a.interval_union(&b), None);
    assert_eq!(b.interval_union(&a), None);
    assert_eq!(a.interval_intersection(&b), None);
    assert_eq!(b.interval_intersection(&a), None);
    assert!(!a.overlaps(&b));
    assert!(!a.touches(&b));
    assert!(!a.dominates(&b));
    assert!(!a.dominates_or_is_dominated_by(&b));
    assert!(!b.overlaps(&a));
    assert!(!b.touches(&a));
    assert!(!b.dominates(&a));
    assert!(!b.dominates_or_is_dominated_by(&a));
}
#[test]
fn abx() {
    let a = 0..2;
    let b = 1..2;
    assert_eq!(a.interval_union(&b), Some(0..2));
    assert_eq!(b.interval_union(&a), Some(0..2));
    assert_eq!(a.interval_intersection(&b), Some(1..2));
    assert_eq!(b.interval_intersection(&a), Some(1..2));
    assert!(a.overlaps(&b));
    assert!(a.touches(&b));
    assert!(a.dominates(&b));
    assert!(a.dominates_or_is_dominated_by(&b));
    assert!(b.overlaps(&a));
    assert!(b.touches(&a));
    assert!(!b.dominates(&a));
    assert!(b.dominates_or_is_dominated_by(&a));
}
#[test]
fn xab() {
    let a = 0..3;
    let b = 0..2;
    assert_eq!(a.interval_union(&b), Some(0..3));
    assert_eq!(b.interval_union(&a), Some(0..3));
    assert_eq!(a.interval_intersection(&b), Some(0..2));
    assert_eq!(b.interval_intersection(&a), Some(0..2));
    assert!(a.overlaps(&b));
    assert!(a.touches(&b));
    assert!(a.dominates(&b));
    assert!(a.dominates_or_is_dominated_by(&b));
    assert!(b.overlaps(&a));
    assert!(b.touches(&a));
    assert!(!b.dominates(&a));
    assert!(b.dominates_or_is_dominated_by(&a));
}
#[test]
fn axb() {
    let a = 0..2;
    let b = 2..3;
    assert_eq!(a.interval_union(&b), Some(0..3));
    assert_eq!(b.interval_union(&a), Some(0..3));

    assert_eq!(a.interval_intersection(&b), None);
    assert_eq!(b.interval_intersection(&a), None);
    // assert_eq!(a.interval_intersection(&b), Some(2..2));
    // assert_eq!(b.interval_intersection(&a), Some(2..2));
    // assert!(a.interval_intersection(&b).is_none() || a.interval_intersection(&b) == Some(2..2));
    // assert!(b.interval_intersection(&a).is_none() || b.interval_intersection(&a) == Some(2..2));

    assert!(!a.overlaps(&b));
    assert!(a.touches(&b));
    assert!(!a.dominates(&b));
    assert!(!a.dominates_or_is_dominated_by(&b));
    assert!(!b.overlaps(&a));
    assert!(b.touches(&a));
    assert!(!b.dominates(&a));
    assert!(!b.dominates_or_is_dominated_by(&a));
}

#[test]
fn touching_ranges_intersect_to_nothing_but_unite() {
    assert_eq!((0..2).interval_intersection(&(2..3)), None);
    assert_eq!((0..2).interval_union(&(2..3)), Some(0..3));
}

#[test]
fn overlap_and_touch_are_symmetric() {
    let cases = [(0..2, 1..3), (0..1, 2..3), (0..2, 2..3), (5..9, 6..7), (-4..-1, -1..0)];
    for (a, b) in cases.iter() {
        assert_eq!(a.overlaps(b), b.overlaps(a));
        assert_eq!(a.touches(b), b.touches(a));
    }
}

#[test]
fn domination_either_way_near_integer_limits() {
    let wide = i32::MIN..i32::MAX;
    let narrow = -1..1;
    assert!(wide.dominates(&narrow));
    assert!(wide.dominates_or_is_dominated_by(&narrow));
    assert!(narrow.dominates_or_is_dominated_by(&wide));
    let left = i32::MIN..0;
    let right = 0..i32::MAX;
    assert!(!left.dominates_or_is_dominated_by(&right));
}

#[test]
fn union_of_separated_ranges_is_none() {
    assert_eq!((0..1).interval_union(&(3..4)), None);
    assert_eq!((3..4).interval_union(&(0..1)), None);
}
