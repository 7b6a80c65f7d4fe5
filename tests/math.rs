use fpsgame::math::{IVec2, IVec3};

#[test]
fn test_arithmetics() {
    let vec2_input1 = IVec2 { x: 2, y: 2 };
    let vec2_input2 = IVec2 { x: 2, y: 2 };
    let vec3_input1 = IVec3 { x: 2, y: 2, z: 2 };
    let vec3_input2 = IVec3 { x: 2, y: 2, z: 2 };
    assert_eq!(vec2_input1 + vec2_input2, IVec2 { x: 4, y: 4 });
    assert_eq!(vec2_input1 - vec2_input2, IVec2 { x: 0, y: 0 });
    assert_eq!(vec2_input1 * 2, IVec2 { x: 4, y: 4 });
    assert_eq!(vec2_input1 / 2, IVec2 { x: 1, y: 1 });

    assert_eq!(vec3_input1 + vec3_input2, IVec3 { x: 4, y: 4, z: 4 });
    assert_eq!(vec3_input1 - vec3_input2, IVec3 { x: 0, y: 0, z: 0 });
    assert_eq!(vec3_input1 * 2, IVec3 { x: 4, y: 4, z: 4 });
    assert_eq!(vec3_input1 / 2, IVec3 { x: 1, y: 1, z: 1 });
}

#[test]
fn division_rounds_toward_zero() {
    assert_eq!(IVec3 { x: -7, y: 7, z: -1 } / 2, IVec3 { x: -3, y: 3, z: 0 });
    assert_eq!(IVec2 { x: -7, y: 7 } / -2, IVec2 { x: 3, y: -3 });
}

#[test]
fn unit_and_splat_vectors() {
    assert_eq!(IVec3::unit_x(), IVec3 { x: 1, y: 0, z: 0 });
    assert_eq!(IVec3::unit_y(), IVec3 { x: 0, y: 1, z: 0 });
    assert_eq!(IVec3::unit_z(), IVec3 { x: 0, y: 0, z: 1 });
    assert_eq!(IVec3::splat(5), IVec3 { x: 5, y: 5, z: 5 });
    assert_eq!(IVec2::unit_x(), IVec2 { x: 1, y: 0 });
    assert_eq!(IVec2::unit_y(), IVec2 { x: 0, y: 1 });
    assert_eq!(IVec2::splat(-3), IVec2 { x: -3, y: -3 });
}

#[test]
fn cross_and_perp_dot() {
    assert_eq!(IVec3::unit_x().cross(IVec3::unit_y()), IVec3::unit_z());
    assert_eq!(IVec3 { x: 1, y: 2, z: 3 }.cross(IVec3 { x: 4, y: 5, z: 6 }), IVec3 { x: -3, y: 6, z: -3 });
    assert_eq!(IVec2 { x: 1, y: 2 }.perp_dot(IVec2 { x: 3, y: 4 }), -2);
}

#[test]
fn truncate_and_extend() {
    let v = IVec3 { x: 1, y: 2, z: 3 };
    assert_eq!(v.truncate(), IVec2 { x: 1, y: 2 });
    assert_eq!(IVec2 { x: 1, y: 2 }.extend(9), IVec3 { x: 1, y: 2, z: 9 });
}
