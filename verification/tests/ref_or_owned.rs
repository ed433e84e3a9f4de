use voxel_engine::ref_or_owned::RefOrOwned;

#[test]
fn owned_values_and_references_give_the_value() {
    let s = String::from("stone");
    let from_ref: String = RefOrOwned::<String>::into_owned(&s);
    assert_eq!(from_ref, "stone");
    let owned: String = RefOrOwned::<String>::into_owned(s);
    assert_eq!(owned, "stone");
}
