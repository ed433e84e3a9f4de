use voxel_engine::enum_set::EnumSet;
use voxel_engine::grid::{Axis, CardinalDirection, Sign};

fn dir(sign: Sign, axis: Axis) -> CardinalDirection {
    CardinalDirection { sign, axis }
}

#[test]
fn empty_and_all() {
    let empty = EnumSet::<CardinalDirection>::empty();
    let all = EnumSet::<CardinalDirection>::all();
    assert!(empty.is_empty());
    assert!(!empty.is_all());
    assert!(all.is_all());
    assert_eq!(all.len(), 6);
    assert_eq!(all.into_bits(), 0b11_1111);
    assert_eq!(EnumSet::<Axis>::all().into_bits(), 0b111);
    assert!(all.inverse().is_empty());
    assert!(empty.inverse() == all);
}

#[test]
fn insert_and_contains() {
    let mut set = EnumSet::<CardinalDirection>::empty();
    set.insert(dir(Sign::Negative, Axis::Y));
    assert!(set.contains(dir(Sign::Negative, Axis::Y)));
    assert!(!set.contains(dir(Sign::Positive, Axis::Y)));
    // -y is the fourth direction.
    assert_eq!(set.into_bits(), 0b1000);
    assert_eq!(set.len(), 1);
    let set = set.with(dir(Sign::Positive, Axis::X));
    assert_eq!(set.into_bits(), 0b1001);
    assert_eq!(set.without(dir(Sign::Negative, Axis::Y)).into_bits(), 0b1);
}

#[test]
fn remove_takes_the_value_out() {
    let mut set = EnumSet::<CardinalDirection>::empty();
    set.insert(dir(Sign::Positive, Axis::Z));
    set.insert(dir(Sign::Negative, Axis::Y));
    set.remove(dir(Sign::Positive, Axis::Z));
    assert!(!set.contains(dir(Sign::Positive, Axis::Z)));
    assert!(set.contains(dir(Sign::Negative, Axis::Y)));
    set.remove(dir(Sign::Positive, Axis::Z));
    assert_eq!(set.len(), 1);
}

#[test]
fn from_bits_drops_unknown_variants() {
    let set = EnumSet::<Axis>::from_bits(0b1111_1010);
    assert_eq!(set.into_bits(), 0b010);
    assert!(set.contains(Axis::Y));
    assert!(!set.contains(Axis::X));
    assert_eq!(set.iter(), vec![Axis::Y]);
}

#[test]
fn set_operations() {
    let a = EnumSet::<CardinalDirection>::from_bits(0b0011_0110);
    let b = EnumSet::<CardinalDirection>::from_bits(0b0001_1100);
    assert_eq!(a.union(b).into_bits(), 0b11_1110);
    assert_eq!(a.intersection(b).into_bits(), 0b01_0100);
    assert_eq!(a.difference(b).into_bits(), 0b10_0010);
    assert_eq!(a.inverse().into_bits(), 0b00_1001);
    assert!(a.intersection(b).is_subset(a));
    assert!(a.is_superset(a.intersection(b)));
    assert!(!a.is_subset(b));
    let mut c = a;
    c.clear();
    assert!(c.is_empty());
}

#[test]
fn iteration_follows_variant_order() {
    let set = EnumSet::<CardinalDirection>::from_bits(0b10_0101);
    assert_eq!(
        set.iter(),
        vec![dir(Sign::Positive, Axis::X), dir(Sign::Positive, Axis::Y), dir(Sign::Negative, Axis::Z)]
    );
}
