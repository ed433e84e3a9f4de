use voxel_engine::model_resolve::{resolve_model_elements, ModelData, ResolvedTexture, Texture};

fn entry(name: &str, texture: Texture) -> (String, Texture) {
    (name.to_string(), texture)
}

fn reference(r: &str) -> Texture {
    Texture::Reference(r.to_string())
}

fn plain(location: usize) -> ResolvedTexture {
    ResolvedTexture { force_translucent: false, location }
}

#[test]
fn references_resolve_through_parents() {
    let models = vec![
        // 0: cube_all
        ModelData {
            parent: Some(1),
            ambientocclusion: None,
            textures: vec![entry("particle", reference("#all")), entry("down", reference("#all"))],
            has_elements: false,
        },
        // 1: cube
        ModelData {
            parent: None,
            ambientocclusion: Some(false),
            textures: vec![entry("up", reference("#down")), entry("side", reference("#missing"))],
            has_elements: true,
        },
        // 2: stone
        ModelData { parent: Some(0), ambientocclusion: None, textures: vec![entry("all", Texture::Location(7))], has_elements: false },
    ];
    let r = resolve_model_elements(&models, 2);
    assert!(!r.enable_ambient_occlusion);
    assert_eq!(r.model, 1);
    assert!(r.has_elements);
    assert_eq!(r.textures.get_from("all", 0), Some(plain(7)));
    assert_eq!(r.textures.get_from("particle", 0), Some(plain(7)));
    assert_eq!(r.textures.get_from("#down", 1), Some(plain(7)));
    assert_eq!(r.textures.get_from("up", 0), Some(plain(7)));
    // A reference to an unknown name is skipped.
    assert_eq!(r.textures.get_from("side", 0), None);
}

#[test]
fn children_settings_come_first() {
    let models = vec![
        ModelData {
            parent: None,
            ambientocclusion: Some(false),
            textures: vec![entry("glass", Texture::Location(1))],
            has_elements: false,
        },
        ModelData {
            parent: Some(0),
            ambientocclusion: Some(true),
            textures: vec![
                entry("glass", Texture::Detailed { location: 3, force_translucent: true }),
                entry("copy", reference("##glass")),
            ],
            has_elements: false,
        },
    ];
    let r = resolve_model_elements(&models, 1);
    // The child's setting wins; no model has elements.
    assert!(r.enable_ambient_occlusion);
    assert_eq!(r.model, 0);
    assert!(!r.has_elements);
    // The parent's entry is applied last and replaces the child's.
    assert_eq!(r.textures.get_from("glass", 0), Some(plain(1)));
    assert_eq!(r.textures.get_from("copy", 0), Some(ResolvedTexture { force_translucent: true, location: 3 }));
}

#[test]
fn ambient_occlusion_defaults_to_on() {
    let models = vec![ModelData { parent: None, ambientocclusion: None, textures: vec![], has_elements: true }];
    let r = resolve_model_elements(&models, 0);
    assert!(r.enable_ambient_occlusion);
    assert_eq!(r.model, 0);
}
