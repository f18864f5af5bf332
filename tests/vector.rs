use interval_kit::linear_index::LinearIndex;
use interval_kit::modular::ModularDecompose;
use interval_kit::vector::{Scalar, V2i32, Vector, V2, V3, V4};

#[test]
fn v3_eq() {
    let a = V3::from_xyz(0, 0, 0);
    let b = V3::from_xyz(0, 0, 0);
    assert!(a == b);
    assert_eq!(a, b);
}

#[test]
fn v3_basis_vectors() {
    assert_eq!(V2i32::one(), V2i32::basis_x() + V2i32::basis_y());
    assert_eq!(V2i32::basis_x(), V2i32::basis_x() + V2i32::zero());
}

#[test]
fn component_access() {
    let v = V4::from_xyzw(1, 2, 3, 4);
    assert_eq!((v.x(), v.y(), v.z(), v.w()), (1, 2, 3, 4));
    let u = V3::from_xyz(5, 6, 7);
    assert_eq!((u.x(), u.y(), u.z()), (5, 6, 7));
    let p = V2::from_xy(8, 9);
    assert_eq!((p.x(), p.y()), (8, 9));
    assert_eq!(Vector::new([1, 2, 3]).values, [1, 2, 3]);
    assert_eq!(Vector::<3, u8>::all(7).values, [7, 7, 7]);
    assert_eq!(Scalar::new(4).value, 4);
}

#[test]
fn elementwise_operations() {
    let a = V3::from_xyz(1, -5, 3);
    let b = V3::from_xyz(2, -7, 3);
    assert_eq!(a.elementwise_min(b), V3::from_xyz(1, -7, 3));
    assert_eq!(a.elementwise_max(b), V3::from_xyz(2, -5, 3));
    assert_eq!(a.elementwise_unary(|x| x * 2), V3::from_xyz(2, -10, 6));
    assert_eq!(a.elementwise_binary(b, |x, y| x - y), V3::from_xyz(-1, 2, 0));
    assert_eq!(a.aggregate(|acc, x| acc * 10 + x), 10 * (10 * 1 - 5) + 3);
    assert_eq!(a.inner(b), 2 + 35 + 9);
    assert_eq!(a + b, V3::from_xyz(3, -12, 6));
    assert_eq!(a - b, V3::from_xyz(-1, 2, 0));
}

#[test]
fn winding_and_perpendicular() {
    let x = V2i32::basis_x();
    let y = V2i32::basis_y();
    assert_eq!(x.winding(y), 1);
    assert_eq!(y.winding(x), -1);
    assert_eq!(x.perp(), y);
    assert_eq!(V2::from_xy(3, 4).perp(), V2::from_xy(-4, 3));
}

#[test]
fn v3_linear_index() {
    let bitmap = V2::from_xy(8, 8);
    let pixel = V2::from_xy(4, 4);
    let pixel_index = 4 * 8 + 4;
    assert_eq!(Some(pixel), bitmap.unindex(pixel_index));
    assert_eq!(Some(pixel_index), bitmap.index(pixel));
}

#[test]
fn v3_modular_decompose() {
    let a = V2::from_xy(0, 0);
    let size = V2::from_xy(2, 2);
    let (a_count, a_residue) = a.modular_decompose(size);
    assert_eq!(V2::from_xy(0, 0), a_count);
    assert_eq!(V2::from_xy(0, 0), a_residue);
}

#[test]
fn v3_modular_decompose2() {
    let a = V2::from_xy(1, -1);
    let size = V2::from_xy(2, 2);
    let (a_count, a_residue) = a.modular_decompose(size);
    assert_eq!(V2::from_xy(0, -1), a_count);
    assert_eq!(V2::from_xy(1, 1), a_residue);
}

#[test]
fn v3_modular_decompose3() {
    let a = V2::from_xy(-1, 0);
    let size = V2::from_xy(16, 16);
    let (a_count, a_residue) = a.modular_decompose(size);
    assert_eq!(V2::from_xy(-1, 0), a_count);
    assert_eq!(V2::from_xy(15, 0), a_residue);
}

#[test]
fn linear_index_of_three_dimensions() {
    let shape = V3::from_xyz(3, 4, 5);
    assert_eq!(shape.index(V3::from_xyz(2, 1, 3)), Some(2 + 3 * (1 + 4 * 3)));
    assert_eq!(shape.unindex(41), Some(V3::from_xyz(2, 1, 3)));
    assert_eq!(shape.index(V3::from_xyz(3, 0, 0)), None);
    assert_eq!(shape.index(V3::from_xyz(0, -1, 0)), None);
    assert!(shape.is_in_bounds(&V3::from_xyz(2, 3, 4)));
    assert!(!shape.is_in_bounds(&V3::from_xyz(2, 3, 5)));
}

#[test]
fn modular_decompose_of_scalars() {
    assert_eq!((-7i32).modular_decompose(3), (-3, 2));
    assert_eq!(7i32.modular_decompose(3), (2, 1));
    assert_eq!((-6i32).modular_decompose(3), (-2, 0));
    assert_eq!(i32::MIN.modular_decompose(i32::MAX), (-2, 2147483646));
}

#[test]
fn scaling_vectors() {
    let v = V3::from_xyz(1, -2, 3);
    assert_eq!(v * 3, V3::from_xyz(3, -6, 9));
    assert_eq!(Scalar::new(-2) * v, V3::from_xyz(-2, 4, -6));
}
