use voxel_engine::materials::{GlobalMaterialTuple, GlobalMaterials};

#[test]
fn first_user_schedules_registration() {
    let mut globals = GlobalMaterials::new();
    globals.increment(7);
    assert_eq!(globals.take_to_register(), vec![7]);
    assert!(globals.take_to_register().is_empty());
    assert!(globals.take_unregistered().is_empty());
}

#[test]
fn unregistered_material_without_users_is_dropped_quietly() {
    let mut globals = GlobalMaterials::new();
    globals.increment(7);
    globals.decrement(7);
    assert!(globals.take_to_register().is_empty());
    assert!(globals.take_unregistered().is_empty());
}

#[test]
fn registered_material_without_users_is_unregistered() {
    let mut globals = GlobalMaterials::new();
    globals.increment(7);
    globals.increment(7);
    assert_eq!(globals.take_to_register(), vec![7]);
    globals.decrement(7);
    assert!(globals.take_unregistered().is_empty());
    globals.decrement(7);
    assert_eq!(globals.take_unregistered(), vec![7]);
    // Gone: a new user registers it again.
    globals.increment(7);
    assert_eq!(globals.take_to_register(), vec![7]);
}

#[test]
fn a_new_user_cancels_the_unregistration() {
    let mut globals = GlobalMaterials::new();
    globals.increment(3);
    globals.take_to_register();
    globals.decrement(3);
    globals.increment(3);
    assert!(globals.take_unregistered().is_empty());
    assert!(globals.take_to_register().is_empty());
}

#[test]
fn tuple_of_global_materials_comes_and_goes() {
    let mut globals = GlobalMaterials::new();
    globals.increment(9);
    assert_eq!(globals.take_to_register(), vec![9]);
    let tuple = GlobalMaterialTuple::new(vec![9, 4, 9]);
    tuple.increment(&mut globals);
    assert_eq!(globals.take_to_register(), vec![4]);
    tuple.decrement(&mut globals);
    // Back to one user of 9; 4 was registered and lost its last user.
    assert!(globals.take_to_register().is_empty());
    assert_eq!(globals.take_unregistered(), vec![4]);
    globals.decrement(9);
    assert_eq!(globals.take_unregistered(), vec![9]);
}
