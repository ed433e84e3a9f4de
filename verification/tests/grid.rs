use voxel_engine::grid::{Axis, CardinalDirection, GridAngle, ModelRotation, Sign};

const ANGLES: [GridAngle; 4] = [GridAngle::Zero, GridAngle::Ninety, GridAngle::OneEighty, GridAngle::TwoSeventy];
const AXES: [Axis; 3] = [Axis::X, Axis::Y, Axis::Z];

#[test]
fn test_cardinal_direction_indices() {
    let pos_x = CardinalDirection { sign: Sign::Positive, axis: Axis::X };
    let neg_x = CardinalDirection { sign: Sign::Negative, axis: Axis::X };
    let pos_y = CardinalDirection { sign: Sign::Positive, axis: Axis::Y };
    let neg_y = CardinalDirection { sign: Sign::Negative, axis: Axis::Y };
    let pos_z = CardinalDirection { sign: Sign::Positive, axis: Axis::Z };
    let neg_z = CardinalDirection { sign: Sign::Negative, axis: Axis::Z };
    assert_eq!(pos_x.into_usize(), 0);
    assert_eq!(neg_x.into_usize(), 1);
    assert_eq!(pos_y.into_usize(), 2);
    assert_eq!(neg_y.into_usize(), 3);
    assert_eq!(pos_z.into_usize(), 4);
    assert_eq!(neg_z.into_usize(), 5);
    assert_eq!(CardinalDirection::values(), [pos_x, neg_x, pos_y, neg_y, pos_z, neg_z]);
}

#[test]
fn test_grid_angle_add() {
    for a in ANGLES {
        for b in ANGLES {
            assert_eq!(a.add(b).degrees(), (a.degrees() + b.degrees()) % 360, "{a:?} + {b:?}");
        }
    }
}

#[test]
fn test_grid_angle_sub() {
    for a in ANGLES {
        for b in ANGLES {
            assert_eq!(i32::from(a.sub(b).degrees()), (i32::from(a.degrees()) - i32::from(b.degrees())).rem_euclid(360), "{a:?} - {b:?}");
        }
    }
}

#[test]
fn test_cardinal_direction_rotate_90() {
    for dir in CardinalDirection::values() {
        for axis in AXES {
            if dir.axis == axis {
                assert_eq!(dir.rotate_90_degrees_cw(axis), dir);
            }
            else {
                assert_eq!(dir.rotate_90_degrees_cw(axis).rotate_90_degrees_cw(axis), dir.opposit());
            }
            assert_eq!(dir.rotate_90_degrees_cw(axis).rotate_90_degrees_ccw(axis), dir);
            assert_eq!(dir.rotate_90_degrees_ccw(axis).rotate_90_degrees_cw(axis), dir);
        }
    }
}

#[test]
fn quarter_turn_about_z_takes_x_to_y() {
    let pos_x = CardinalDirection { sign: Sign::Positive, axis: Axis::X };
    let r = pos_x.rotate_90_degrees_cw(Axis::Z);
    assert_eq!(r.as_isizevec3(), (0, 1, 0));
    assert_eq!(pos_x.rotate(Axis::Z, GridAngle::TwoSeventy).as_isizevec3(), (0, -1, 0));
    assert_eq!(pos_x.rotate(Axis::Y, GridAngle::OneEighty).as_isizevec3(), (-1, 0, 0));
}

#[test]
fn grid_angle_bits_roundtrip() {
    for a in ANGLES {
        assert_eq!(GridAngle::from_bits(a.into_bits()), a);
    }
    assert_eq!(GridAngle::Ninety.into_bits(), 1);
    assert_eq!(GridAngle::from_bits(3), GridAngle::TwoSeventy);
    assert_eq!(GridAngle::Ninety.neg(), GridAngle::TwoSeventy);
}

#[test]
fn zero_model_rotation_keeps_faces() {
    for dir in CardinalDirection::values() {
        assert_eq!(ModelRotation::zero().rotate_with_uv(dir), (dir, GridAngle::Zero));
    }
}
