use tinyrender::geometry::{cross, proj_refactor, Vec2i, Vec3i};

#[test]
fn vec2i_constructors() {
    let z = Vec2i::new();
    assert_eq!(z, Vec2i { x: 0, y: 0 });
    let v = Vec2i::new_args(3, -4);
    assert_eq!(v.x, 3);
    assert_eq!(v.y, -4);
    let w = Vec2i::from_vec(&vec![7, 8, 9]);
    assert_eq!(w, Vec2i { x: 7, y: 8 });
}

#[test]
fn vec2i_arithmetic() {
    let a = Vec2i::new_args(1, 2);
    let b = Vec2i::new_args(10, 20);
    assert_eq!(a.add(b), Vec2i { x: 11, y: 22 });
    assert_eq!(b.sub(a), Vec2i { x: 9, y: 18 });
    assert_eq!(a.get(0), 1);
    assert_eq!(a.get(1), 2);
}

#[test]
fn vec3i_constructors() {
    let z = Vec3i::new();
    assert_eq!(z, Vec3i { x: 0, y: 0, z: 0 });
    let v = Vec3i::new_args(-1, 5, 9);
    assert_eq!(v, Vec3i { x: -1, y: 5, z: 9 });
    let w = Vec3i::from_vec(&vec![4, 5, 6]);
    assert_eq!(w, Vec3i { x: 4, y: 5, z: 6 });
}

#[test]
fn vec3i_arithmetic() {
    let a = Vec3i::new_args(1, 2, 3);
    let b = Vec3i::new_args(10, 20, 30);
    assert_eq!(a.add(b), Vec3i { x: 11, y: 22, z: 33 });
    assert_eq!(b.sub(a), Vec3i { x: 9, y: 18, z: 27 });
    assert_eq!(a.scale(-2), Vec3i { x: -2, y: -4, z: -6 });
    assert_eq!(a.get(2), 3);
}

#[test]
fn dot_product_exact() {
    let a = Vec3i::new_args(1, 2, 3);
    let b = Vec3i::new_args(4, -5, 6);
    assert_eq!(a.dot(b), 4 - 10 + 18);
}

#[test]
fn cross_product_exact() {
    let a = Vec3i::new_args(1, 0, 0);
    let b = Vec3i::new_args(0, 1, 0);
    assert_eq!(cross(a, b), Vec3i { x: 0, y: 0, z: 1 });
    let u = Vec3i::new_args(2, 3, 4);
    let v = Vec3i::new_args(5, 6, 7);
    assert_eq!(cross(u, v), Vec3i { x: -3, y: 6, z: -3 });
}

#[test]
fn cross_is_orthogonal_to_both_arguments() {
    let u = Vec3i::new_args(2, -7, 13);
    let v = Vec3i::new_args(-5, 11, 3);
    let c = cross(u, v);
    assert_eq!(c.dot(u), 0);
    assert_eq!(c.dot(v), 0);
}

#[test]
fn proj_refactor_keeps_prefix() {
    let v: Vec<i32> = vec![10, 20, 30, 40];
    assert_eq!(proj_refactor(v.clone(), 2), vec![10, 20]);
    assert_eq!(proj_refactor(v.clone(), 0), Vec::<i32>::new());
    assert_eq!(proj_refactor(v, 4), vec![10, 20, 30, 40]);
}

#[test]
fn proj_refactor_on_floats() {
    let v: Vec<f32> = vec![1.5, 2.5, 3.5];
    assert_eq!(proj_refactor(v, 2), vec![1.5, 2.5]);
}
