use interval_kit::arraynd::Array2d;
use interval_kit::geometric_traits::{
    EuclideanDistanceSquared, IterateNeighbours, ManhattanDistance, Movement4Directions,
};
use interval_kit::vector::{V2i32, V2, V3};

#[test]
fn distances_between_vectors() {
    let a = V3::from_xyz(1, -2, 3);
    let b = V3::from_xyz(4, 2, 3);
    assert_eq!(a.manhattan_distance(&b), 7);
    assert_eq!(b.manhattan_distance(&a), 7);
    assert_eq!(a.euclidean_distance_squared(&b), 25);
    assert_eq!(a.manhattan_distance(&a), 0);
}

#[test]
fn neighbours_without_bounds() {
    let p = V2i32::from_xy(0, 5);
    let n = p.neighbours(&());
    assert_eq!(
        n,
        vec![
            V2i32::from_xy(1, 5),
            V2i32::from_xy(-1, 5),
            V2i32::from_xy(0, 6),
            V2i32::from_xy(0, 4)
        ]
    );
    let edge = V2i32::from_xy(i32::MAX, i32::MIN);
    assert_eq!(
        edge.neighbours(&()),
        vec![V2i32::from_xy(i32::MAX - 1, i32::MIN), V2i32::from_xy(i32::MAX, i32::MIN + 1)]
    );
}

#[test]
fn neighbours_inside_an_array() {
    let grid = Array2d::with_dimensions(3, 2, 0u8);
    let corner = V2i32::from_xy(0, 0);
    assert_eq!(
        corner.neighbours(&grid),
        vec![V2i32::from_xy(1, 0), V2i32::from_xy(0, 1)]
    );
    let middle = V2i32::from_xy(1, 1);
    assert_eq!(
        middle.neighbours(&grid),
        vec![V2i32::from_xy(2, 1), V2i32::from_xy(0, 1), V2i32::from_xy(1, 0)]
    );
}

#[test]
fn stepping_in_four_directions() {
    let p = V2i32::from_xy(3, -4);
    assert_eq!(p.step_right(), Some(V2i32::from_xy(4, -4)));
    assert_eq!(p.step_up(), Some(V2i32::from_xy(3, -3)));
    assert_eq!(p.step_left(), Some(V2i32::from_xy(2, -4)));
    assert_eq!(p.step_down(), Some(V2i32::from_xy(3, -5)));
    assert_eq!(p.step_right_n(5), Some(V2i32::from_xy(8, -4)));
    assert_eq!(p.step_down_n(0), Some(p));
    assert_eq!(V2i32::from_xy(i32::MAX - 1, 0).step_right_n(2), None);
    let origin: V2<usize> = V2::from_xy(0, 0);
    assert_eq!(origin.step_left(), None);
    assert_eq!(origin.step_down_n(1), None);
    assert_eq!(origin.step_up_n(3), Some(V2::from_xy(0, 3)));
    assert_eq!(origin.step_left_n(0), Some(origin));
}
