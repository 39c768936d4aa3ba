use rmu::vector::{Sqrt, Vector};
use rmu::vectorn::VectorN;

#[test]
fn vector_new_and_size() {
    let v = Vector::<3>::new([1, 2, 3]);
    assert_eq!(v.data, [1, 2, 3]);
    assert_eq!(Vector::<3>::size(), 3);
    assert_eq!(Vector::<7>::size(), 7);
}

#[test]
fn vector_broadcast() {
    let v = Vector::<4>::broadcast(9);
    assert_eq!(v.data, [9, 9, 9, 9]);
}

#[test]
fn vector_length_square() {
    let v = Vector::<3>::new([1, 1, 1]);
    assert_eq!(v.length_square(), 3);
    let w = Vector::<2>::new([3, 4]);
    assert_eq!(w.length_square(), 25);
}

#[test]
fn vector_length() {
    // an exact square
    assert_eq!(Vector::<2>::new([3, 4]).length(), 5);
    // truncated roots
    assert_eq!(Vector::<3>::new([1, 1, 1]).length(), 1);
    assert_eq!(Vector::<2>::new([2, 2]).length(), 2);
    assert_eq!(Vector::<1>::new([10]).length(), 10);
}

#[test]
fn vector_normalized() {
    let v = Vector::<2>::new([5, 0]);
    assert_eq!(v.normalized().data, [1, 0]);
    let w = Vector::<2>::new([3, 4]);
    // integer division truncates each component
    assert_eq!(w.normalized().data, [0, 0]);
}

#[test]
fn vector_dot() {
    let a = Vector::<3>::new([1, 2, 3]);
    let b = Vector::<3>::new([4, 5, 6]);
    assert_eq!(Vector::dot(a, b), 32);
    let z = Vector::<3>::broadcast(0);
    assert_eq!(Vector::dot(a, z), 0);
}

#[test]
fn sqrt_truncates() {
    assert_eq!(Sqrt::sqrt(0u64), 0);
    assert_eq!(Sqrt::sqrt(1u64), 1);
    assert_eq!(Sqrt::sqrt(10u64), 3);
    assert_eq!(Sqrt::sqrt(16u64), 4);
    assert_eq!(Sqrt::sqrt(u64::MAX), (1u64 << 32) - 1);
    assert_eq!(Sqrt::sqrt(15i64), 3);
    assert_eq!(Sqrt::sqrt(0i64), 0);
    assert_eq!(Sqrt::sqrt(i64::MAX), 3037000499);
}

#[test]
fn vector_f32() {
    let a = Vector::<3>::new([1, 1, 1]);
    let b = Vector::<3>::new([1, 1, 1]);
    assert_eq!(a, b);
    assert_eq!(Vector::dot(a, b), 3);
    assert_eq!(a.length_square(), 3);
    assert_eq!(a.length(), 1);
}

#[test]
fn vector_f64() {
    let a = Vector::<3>::new([1, 1, 1]);
    let b = a.clone();
    assert_eq!(a, b);
    assert_eq!(Vector::dot(a, b), 3);
}

#[test]
fn vectorn_new_and_len() {
    let v = VectorN::new(vec![1, 2, 3, 4]);
    assert_eq!(v.len(), 4);
    assert_eq!(v.data, vec![1, 2, 3, 4]);
    let e = VectorN::new(vec![]);
    assert_eq!(e.len(), 0);
}

#[test]
fn vectorn_dot() {
    let a = VectorN::new(vec![1, 2, 3]);
    let b = VectorN::new(vec![4, 5, 6]);
    assert_eq!(VectorN::dot(a, b), 32);
    let e1 = VectorN::new(vec![]);
    let e2 = VectorN::new(vec![]);
    assert_eq!(VectorN::dot(e1, e2), 0);
}
