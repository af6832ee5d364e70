//! The vector primitive, exercised at fixed point: one unit is 1_000_000.

use raytrace::vec3::Vec3;

#[test]
fn test_vec3_new() {
    let v = Vec3::new(1_000_000, 2_000_000, 3_000_000);
    assert_eq!(v.x(), 1_000_000);
    assert_eq!(v.y(), 2_000_000);
    assert_eq!(v.z(), 3_000_000);
}

#[test]
fn test_vec3_length() {
    let v = Vec3::new(1_000_000, 2_000_000, 2_000_000);
    assert_eq!(v.length(), 3_000_000);
}

#[test]
fn test_vec3_length_squared() {
    let v = Vec3::new(1_000_000, 2_000_000, 2_000_000);
    assert_eq!(v.length_squared(), 9_000_000);
}

#[test]
fn test_vec3_dot() {
    let v1 = Vec3::new(1_000_000, 2_000_000, 3_000_000);
    let v2 = Vec3::new(4_000_000, -5_000_000, 6_000_000);
    assert_eq!(v1.dot(v2), 12_000_000);
}

#[test]
fn test_vec3_cross() {
    let v1 = Vec3::new(1_000_000, 2_000_000, 3_000_000);
    let v2 = Vec3::new(4_000_000, 5_000_000, 6_000_000);
    let cross = v1.cross(v2);
    assert_eq!(cross.x(), -3_000_000);
    assert_eq!(cross.y(), 6_000_000);
    assert_eq!(cross.z(), -3_000_000);
}

#[test]
fn test_vec3_unit_vector() {
    let v = Vec3::new(1_000_000, 2_000_000, 2_000_000);
    let unit = v.unit_vector();
    assert_eq!(unit.x(), 333_333);
    assert_eq!(unit.y(), 666_666);
    assert_eq!(unit.z(), 666_666);
}

#[test]
fn test_vec3_add() {
    let v1 = Vec3::new(1_000_000, 2_000_000, 3_000_000);
    let v2 = Vec3::new(4_000_000, 5_000_000, 6_000_000);
    let sum = v1.add(v2);
    assert_eq!(sum.x(), 5_000_000);
    assert_eq!(sum.y(), 7_000_000);
    assert_eq!(sum.z(), 9_000_000);
}

#[test]
fn test_vec3_sub() {
    let v1 = Vec3::new(1_000_000, 2_000_000, 3_000_000);
    let v2 = Vec3::new(4_000_000, 5_000_000, 6_000_000);
    let diff = v1.sub(v2);
    assert_eq!(diff.x(), -3_000_000);
    assert_eq!(diff.y(), -3_000_000);
    assert_eq!(diff.z(), -3_000_000);
}

#[test]
fn test_vec3_mul() {
    let v = Vec3::new(1_000_000, 2_000_000, 3_000_000);
    let product = v.mul(2_000_000);
    assert_eq!(product.x(), 2_000_000);
    assert_eq!(product.y(), 4_000_000);
    assert_eq!(product.z(), 6_000_000);
}

#[test]
fn test_vec3_div() {
    let v = Vec3::new(2_000_000, 4_000_000, 6_000_000);
    let quotient = v.div(2_000_000);
    assert_eq!(quotient.x(), 1_000_000);
    assert_eq!(quotient.y(), 2_000_000);
    assert_eq!(quotient.z(), 3_000_000);
}

#[test]
fn test_vec3_neg() {
    let v = Vec3::new(1_000_000, -2_000_000, 3_000_000);
    let neg = v.neg();
    assert_eq!(neg.x(), -1_000_000);
    assert_eq!(neg.y(), 2_000_000);
    assert_eq!(neg.z(), -3_000_000);
}

#[test]
fn test_dot_symmetric_values() {
    let a = Vec3::new(3_500_000, -1_250_000, 7_000_000);
    let b = Vec3::new(-2_000_000, 4_750_000, 1_500_000);
    assert_eq!(a.dot(b), b.dot(a));
}

#[test]
fn test_cross_antisymmetric_values() {
    let a = Vec3::new(3_500_000, -1_250_000, 7_000_000);
    let b = Vec3::new(-2_000_000, 4_750_000, 1_500_000);
    let ab = a.cross(b);
    let ba = b.cross(a);
    assert_eq!(ab.x(), -ba.x());
    assert_eq!(ab.y(), -ba.y());
    assert_eq!(ab.z(), -ba.z());
}

#[test]
fn test_unit_vector_near_unit_length() {
    // A direction with no exact fixed-point length still normalizes to a
    // vector whose squared length is within a few millionths of one.
    let v = Vec3::new(1_100_000, 2_300_000, 700_000);
    let unit = v.unit_vector();
    let q = unit.length_squared();
    assert!(1_000_000 - 10 <= q && q <= 1_000_000 + 6);
}

#[test]
fn test_unit_vector_axis() {
    let v = Vec3::new(3_000_000, 0, 0);
    let unit = v.unit_vector();
    assert_eq!(unit.x(), 1_000_000);
    assert_eq!(unit.y(), 0);
    assert_eq!(unit.z(), 0);
}
