use voxel_engine::resource_location::ResourceLocation;
use voxel_engine::resource_location::ResourceLocation as RL;

#[test]
fn test_resource_location_check() {
    assert!(RL::check("minecraft:basic"));
    assert!(RL::check("m:basic"));
    assert!(RL::check("m:basic/with/path"));
    assert!(RL::check("no_namespace"));
    assert!(RL::check("no_namespace/with/path"));
    assert!(!RL::check(""));
    assert!(!RL::check(":"));
    assert!(!RL::check("empty_path:"));
    assert!(!RL::check(":empty_namespace"));
    assert!(!RL::check("a/in:namespace"));
    assert!(!RL::check("multiple:colons:is_forbiden"));
    assert!(RL::check("a_single:colon_is_allowed"));

    assert!(!RL::check("..:is_not_a_valid_namespace"));
    assert!(RL::check("a..:is_valid"));
    assert!(RL::check("..a:is_valid"));
}

#[test]
fn resource_location_new_keeps_text() {
    let loc = ResourceLocation::new("minecraft:stone").unwrap();
    assert_eq!(loc.as_str(), "minecraft:stone");
    assert!(ResourceLocation::new("Upper:case").is_none());
}
