use interval_kit::interval_set::IntervalSet;

#[test]
fn empty() {
    let set = IntervalSet::<i32>::new();
    assert_eq!(set.measure(), 0);
    assert_eq!(set.bounds(), None);
    assert!(set.negation_within_bounds().intervals.is_empty());

    assert_eq!(set.negation().intervals, vec![-2147483648..2147483647]);
    assert_eq!(set.negation().negation(), set);

    assert!(!set.contains(&i32::MIN));
    assert!(!set.contains(&-1));
    assert!(!set.contains(&0));
    assert!(!set.contains(&1));
    assert!(!set.contains(&i32::MAX));
}

#[test]
fn i32() {
    let a = 0..2;
    let b = 1..3;
    let mut set = IntervalSet::new();
    set.union(a);
    set.union(b);
    assert_eq!(set.measure(), 3);

    assert_eq!(
        set.negation().intervals,
        vec![-2147483648..0, 3..2147483647]
    );
    assert_eq!(set.negation().negation(), set);

    assert!(!set.contains(&i32::MIN));
    assert!(!set.contains(&-1));
    assert!(set.contains(&0));
    assert!(set.contains(&1));
    assert!(set.contains(&2));
    assert!(!set.contains(&3));
    assert!(!set.contains(&i32::MAX));
}

#[test]
fn union_in_either_order_gives_the_same_sequence() {
    let mut first = IntervalSet::new();
    first.union(0..2);
    first.union(1..3);
    let mut second = IntervalSet::new();
    second.union(1..3);
    second.union(0..2);
    assert_eq!(first.intervals, vec![0..3]);
    assert_eq!(second.intervals, vec![0..3]);
    assert_eq!(first, second);
}

#[test]
fn touching_ranges_coalesce() {
    let mut set = IntervalSet::new();
    set.union(0..2);
    set.union(2..3);
    assert_eq!(set.intervals, vec![0..3]);
}

#[test]
fn contains_is_half_open() {
    let mut set = IntervalSet::new();
    set.union(0..2);
    set.union(1..3);
    assert!(set.contains(&0));
    assert!(set.contains(&2));
    assert!(!set.contains(&3));
    assert!(!set.contains(&-1));
}

#[test]
fn empty_set_edges() {
    let set = IntervalSet::<i32>::new();
    assert_eq!(set.measure(), 0);
    assert_eq!(set.bounds(), None);
    assert_eq!(set.negation().intervals, vec![i32::MIN..i32::MAX]);
    let default: IntervalSet<i32> = IntervalSet::default();
    assert_eq!(default, set);
}

#[test]
fn degenerate_union_is_ignored() {
    let mut set = IntervalSet::new();
    set.union(4..4);
    set.union(5..2);
    assert!(set.intervals.is_empty());
    set.union(1..3);
    set.union(3..1);
    assert_eq!(set.intervals, vec![1..3]);
}

#[test]
fn union_inside_existing_interval_changes_nothing() {
    let mut set = IntervalSet::new();
    set.union(0..10);
    set.union(2..5);
    assert_eq!(set.intervals, vec![0..10]);
}

#[test]
fn union_bridges_two_neighbours_and_swallows_middle() {
    let mut set = IntervalSet::new();
    set.union(0..2);
    set.union(4..5);
    set.union(7..8);
    set.union(10..12);
    assert_eq!(set.intervals, vec![0..2, 4..5, 7..8, 10..12]);
    set.union(1..11);
    assert_eq!(set.intervals, vec![0..12]);
}

#[test]
fn union_joins_right_neighbour_only() {
    let mut set = IntervalSet::new();
    set.union(0..2);
    set.union(6..9);
    set.union(4..6);
    assert_eq!(set.intervals, vec![0..2, 4..9]);
    set.union(3..3);
    set.union(-5..-3);
    assert_eq!(set.intervals, vec![-5..-3, 0..2, 4..9]);
}

#[test]
fn union_joins_left_neighbour_only() {
    let mut set = IntervalSet::new();
    set.union(0..2);
    set.union(6..9);
    set.union(1..4);
    assert_eq!(set.intervals, vec![0..4, 6..9]);
}

#[test]
fn intersect_clips_and_drops() {
    let mut set = IntervalSet::new();
    set.union(0..2);
    set.union(4..8);
    set.union(10..12);
    set.intersect(1..5);
    assert_eq!(set.intervals, vec![1..2, 4..5]);
    set.intersect(2..4);
    assert!(set.intervals.is_empty());
}

#[test]
fn intersect_with_empty_filter_empties_the_set() {
    let mut set = IntervalSet::new();
    set.union(0..10);
    set.intersect(6..3);
    assert!(set.intervals.is_empty());
}

#[test]
fn retain_keeps_whole_intervals() {
    let mut set = IntervalSet::new();
    set.union(0..2);
    set.union(4..8);
    set.union(10..12);
    set.retain_intersecting(1..5);
    assert_eq!(set.intervals, vec![0..2, 4..8]);
    set.retain_intersecting(2..4);
    assert!(set.intervals.is_empty());
}

#[test]
fn measure_bounds_and_gaps() {
    let mut set = IntervalSet::new();
    set.union(0..2);
    set.union(5..6);
    set.union(9..13);
    assert_eq!(set.measure(), 7);
    assert_eq!(set.bounds(), Some(0..13));
    let gaps = set.negation_within_bounds();
    assert_eq!(gaps.intervals, vec![2..5, 6..9]);
    assert_eq!(13 - 0 - gaps.measure(), set.measure());
    let mut single = IntervalSet::new();
    single.union(3..4);
    assert!(single.negation_within_bounds().intervals.is_empty());
}

#[test]
fn negation_at_domain_extremes() {
    let mut set = IntervalSet::new();
    set.union(i32::MIN..0);
    set.union(5..i32::MAX);
    assert_eq!(set.negation().intervals, vec![0..5]);
    assert_eq!(set.negation().negation(), set);
    let mut whole = IntervalSet::new();
    whole.union(i32::MIN..i32::MAX);
    assert!(whole.negation().intervals.is_empty());
    assert_eq!(whole.negation().negation(), whole);
}

#[test]
fn negation_over_unsigned_domain() {
    let mut set: IntervalSet<u64> = IntervalSet::new();
    set.union(0..3);
    set.union(7..9);
    assert_eq!(set.negation().intervals, vec![3..7, 9..u64::MAX]);
    assert_eq!(set.negation().negation(), set);
    assert_eq!(set.measure(), 5);
}

#[test]
fn containing_interval_finds_the_holder() {
    let mut set = IntervalSet::new();
    set.union(0..2);
    set.union(5..9);
    assert_eq!(set.containing_interval(&6), Some(5..9));
    assert_eq!(set.containing_interval(&5), Some(5..9));
    assert_eq!(set.containing_interval(&2), None);
    assert_eq!(set.containing_interval(&9), None);
    assert_eq!(set.containing_interval(&-1), None);
}
