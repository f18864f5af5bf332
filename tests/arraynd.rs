use interval_kit::arraynd::{Array2d, Array3d, ArrayNd, CharArray2d, CharArrayParseError};
use interval_kit::linear_index::LinearIndex;
use interval_kit::vector::{V2i32, V3};

const EXAMPLE: &str = r#"
467..114..
...*......
..35..633.
......#...
617*......
.....+.58.
..592.....
......755.
...$.*....
.664.598..
"#;

#[test]
fn parse_chararray2d() {
    let map: CharArray2d = EXAMPLE.parse().unwrap();
    assert_eq!(10, map.width());
    assert_eq!(10, map.height());
    assert_eq!(Some(&'4'), map.get(V2i32::from_xy(0, 0)));
}

#[test]
fn fail_parse_chararray2d_inconsistent_line_width() {
    let bad = r#"
line 1
line 2
line 3+
"#;
    if let Err(CharArrayParseError::InconsistentLineWidth(l1, w1, l2, w2)) =
        bad.parse::<CharArray2d>()
    {
        assert!((1..=2).contains(&l1));
        assert_eq!(w1, 6);
        assert_eq!(l2, 3);
        assert_eq!(w2, 7);
    } else {
        panic!();
    }
}

#[test]
fn parse_handles_crlf_and_missing_final_newline() {
    let map: CharArray2d = "ab\r\ncd".parse().unwrap();
    assert_eq!(map.dims, [2, 2]);
    assert_eq!(map.data, vec!['a', 'b', 'c', 'd']);
    assert_eq!(map.dim_strides, [1, 2]);
    let empty: CharArray2d = "".parse().unwrap();
    assert_eq!(empty.dims, [0, 0]);
    assert!(empty.data.is_empty());
}

#[test]
fn from_buffer_reports_first_conflict() {
    let lines = vec![vec![], vec!['x', 'y'], vec![], vec!['z'], vec!['w', 'v', 'u']];
    let result = CharArray2d::from_buffer(&lines);
    assert!(matches!(
        result,
        Err(CharArrayParseError::InconsistentLineWidth(1, 2, 3, 1))
    ));
}

#[test]
fn construction_and_strides() {
    let a: ArrayNd<3, u8> = ArrayNd::new([2, 3, 4], 7);
    assert_eq!(a.data.len(), 24);
    assert_eq!(a.dim_strides, [1, 2, 6]);
    assert!(a.data.iter().all(|&x| x == 7));
    let b = Array2d::with_dimensions(3, 2, 'x');
    assert_eq!((b.width(), b.height()), (3, 2));
    assert_eq!(b.dim_strides, [1, 3]);
    let c = Array3d::with_dimensions(2, 3, 4, 0i32);
    assert_eq!((c.width(), c.height(), c.depth()), (2, 3, 4));
    assert_eq!(c.dim_strides, [1, 2, 6]);
    assert_eq!(c.data.len(), 24);
    let d = ArrayNd::from_slice([2, 2], &[1, 2, 3, 4]);
    assert_eq!(d.data, vec![1, 2, 3, 4]);
    assert_eq!(d.dim_strides, [1, 2]);
}

#[test]
fn positions_and_cells() {
    let mut a = ArrayNd::from_slice([3, 2], &[0, 1, 2, 3, 4, 5]);
    assert_eq!(a.get(V2i32::from_xy(2, 1)), Some(&5));
    assert_eq!(a.get(V2i32::from_xy(3, 0)), None);
    assert_eq!(a.get(V2i32::from_xy(-1, 0)), None);
    assert!(a.set(V2i32::from_xy(1, 1), 9));
    assert!(!a.set(V2i32::from_xy(1, 2), 9));
    assert_eq!(a.data, vec![0, 1, 2, 3, 9, 5]);
    a.set_linear(0, 8);
    *a.get_mut_linear(1) = 6;
    assert_eq!(*a.get_linear(0), 8);
    assert_eq!(a.data, vec![8, 6, 2, 3, 9, 5]);
    assert_eq!(a.index(V2i32::from_xy(2, 1)), Some(5));
    assert_eq!(a.unindex(4), Some(V2i32::from_xy(1, 1)));
}

#[test]
fn finding_items() {
    let a = ArrayNd::from_slice([3, 2], &['a', 'b', 'a', 'c', 'a', 'd']);
    assert_eq!(a.find_item(&'a'), Some(V2i32::from_xy(0, 0)));
    assert_eq!(a.find_last_item(&'a'), Some(V2i32::from_xy(1, 1)));
    assert_eq!(a.find_item(&'c'), Some(V2i32::from_xy(0, 1)));
    assert_eq!(a.find_item(&'z'), None);
    assert_eq!(a.find_last_item(&'z'), None);
}

#[test]
fn replacing_and_mapping() {
    let mut a = ArrayNd::from_slice([2, 2, 1], &[1, 2, 1, 3]);
    a.replace_all(&1, &0);
    assert_eq!(a.data, vec![0, 2, 0, 3]);
    let b = a.map(|x| *x * 10);
    assert_eq!(b.data, vec![0, 20, 0, 30]);
    assert_eq!(b.dims, [2, 2, 1]);
    assert_eq!(b.get(V3::from_xyz(1, 1, 0)), Some(&30));
}

#[test]
fn shifting_rows() {
    let mut a = ArrayNd::from_slice([2, 3], &[1, 2, 3, 4, 5, 6]);
    a.shift_n_rows_down(1, 0);
    assert_eq!(a.data, vec![3, 4, 5, 6, 0, 0]);
    a.shift_n_rows_down(2, 9);
    assert_eq!(a.data, vec![0, 0, 9, 9, 9, 9]);
}

#[test]
fn resizing_with_offset() {
    let a = ArrayNd::from_slice([2, 2], &[1, 2, 3, 4]);
    let r = a.resized([3, 3], 0, V2i32::from_xy(1, 1));
    assert_eq!(r.data, vec![0, 0, 0, 0, 1, 2, 0, 3, 4]);
    assert_eq!(r.dim_strides, [1, 3]);
    let shrunk = a.resized([1, 2], 9, V2i32::from_xy(-1, 0));
    assert_eq!(shrunk.data, vec![2, 4]);
}

#[test]
fn padding_all_sides() {
    let a = ArrayNd::from_slice([2, 2], &[1, 2, 3, 4]);
    let p = a.padded(1, 0);
    assert_eq!(p.dims, [4, 4]);
    assert_eq!(
        p.data,
        vec![0, 0, 0, 0, 0, 1, 2, 0, 0, 3, 4, 0, 0, 0, 0, 0]
    );
}

#[test]
fn finding_all_matches() {
    let a = ArrayNd::from_slice([3, 2], &[1, 5, 1, 7, 1, 2]);
    assert_eq!(
        a.find_all_items(&1),
        vec![V2i32::from_xy(0, 0), V2i32::from_xy(2, 0), V2i32::from_xy(1, 1)]
    );
    assert_eq!(
        a.find_all(|x| *x > 4),
        vec![V2i32::from_xy(1, 0), V2i32::from_xy(0, 1)]
    );
    assert!(a.find_all_items(&9).is_empty());
}

#[test]
fn drawing_blocks() {
    let mut a = Array3d::with_dimensions(2, 3, 2, 0u8);
    a.draw_block([None, Some(1), None], 5);
    for z in 0..2 {
        for y in 0..3 {
            for x in 0..2 {
                let expected = if y == 1 { 5 } else { 0 };
                assert_eq!(a.get(V3::from_xyz(x, y, z)), Some(&expected));
            }
        }
    }
    let mut b = Array2d::with_dimensions(3, 3, '.');
    b.draw_block([Some(2), Some(0)], '#');
    assert_eq!(b.data.iter().filter(|c| **c == '#').count(), 1);
    assert_eq!(b.get(V2i32::from_xy(2, 0)), Some(&'#'));
    b.draw_block([None, None], '*');
    assert!(b.data.iter().all(|c| *c == '*'));
}

#[test]
fn writing_through_get_mut() {
    let mut a = ArrayNd::from_slice([2, 2], &[1, 2, 3, 4]);
    if let Some(cell) = a.get_mut(V2i32::from_xy(1, 0)) {
        *cell = 20;
    }
    assert!(a.get_mut(V2i32::from_xy(2, 0)).is_none());
    assert_eq!(a.data, vec![1, 20, 3, 4]);
}
