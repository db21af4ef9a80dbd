use soyel::materials::MaterialFile;
use soyel::session::{
    material_accent_channels, material_has_category, material_has_role, previews_as_metallic, roughness_traits,
    AppliedMaterial, MaterialApplication, PreviewMaterial, RendererSession, SurfaceFamily, SurfaceSelection,
};

fn map(role: &str) -> MaterialFile {
    MaterialFile {
        map: role.to_string(),
        role: role.to_string(),
        resolution: "2k".to_string(),
        format: "png".to_string(),
        url: String::new(),
        md5: None,
        size: None,
    }
}

fn application(id: &str, name: &str, categories: &[&str], roles: &[&str]) -> MaterialApplication {
    MaterialApplication {
        id: id.to_string(),
        name: name.to_string(),
        thumbnail_url: None,
        categories: categories.iter().map(|c| c.to_string()).collect(),
        authors: vec!["Rob Tuytel".to_string()],
        maps: roles.iter().map(|r| map(r)).collect(),
    }
}

fn preview(categories: &[&str], roles: &[&str]) -> PreviewMaterial {
    PreviewMaterial {
        name: "m".to_string(),
        categories: categories.iter().map(|c| c.to_string()).collect(),
        maps: roles.iter().map(|r| map(r)).collect(),
    }
}

#[test]
fn new_session_selects_the_sample_block() {
    let session = RendererSession::new();
    let selected = session.selected_surface();
    assert_eq!(selected.id, "sample-block");
    assert_eq!(selected.label, "Sample Block");
    assert!(session.applied_preview_material().is_none());
    assert!(session.applied_materials_by_label().is_empty());
    let default = SurfaceSelection::default();
    assert_eq!((default.id, default.label), ("sample-block".to_string(), "Sample Block".to_string()));
}

#[test]
fn applied_material_is_previewed_on_its_surface() {
    let mut session = RendererSession::new();
    session.apply_material_to_selection(application("red_brick", "Red Brick", &["brick"], &["baseColor"]));
    let p = session.applied_preview_material().unwrap();
    assert_eq!(p.name, "Red Brick");
    assert_eq!(p.categories, vec!["brick".to_string()]);
    assert_eq!(p.maps.len(), 1);

    session.select_scene_surface("floor".to_string(), "Floor".to_string());
    assert!(session.applied_preview_material().is_none());
    session.apply_material_to_selection(application("oak", "Oak", &["wood"], &[]));
    assert_eq!(session.applied_preview_material().unwrap().name, "Oak");

    session.select_scene_surface("sample-block".to_string(), "Sample Block".to_string());
    assert_eq!(session.applied_preview_material().unwrap().name, "Red Brick");

    session.apply_material_to_selection(application("rock", "Rock", &["rock"], &[]));
    assert_eq!(session.applied_preview_material().unwrap().name, "Rock");
    let labels: Vec<(String, String)> =
        session.applied_materials_by_label().iter().map(|m| (m.surface_label.clone(), m.material_name.clone())).collect();
    assert_eq!(
        labels,
        vec![("Floor".to_string(), "Oak".to_string()), ("Sample Block".to_string(), "Rock".to_string())]
    );
}

#[test]
fn preview_material_copies_name_categories_and_maps() {
    let applied = AppliedMaterial {
        surface_id: "floor".to_string(),
        surface_label: "Floor".to_string(),
        material_id: "oak".to_string(),
        material_name: "Oak".to_string(),
        thumbnail_url: Some("t".to_string()),
        categories: vec!["wood".to_string()],
        authors: vec![],
        maps: vec![map("roughness")],
    };
    let p = PreviewMaterial::from(&applied);
    assert_eq!(p.name, "Oak");
    assert_eq!(p.categories, vec!["wood".to_string()]);
    assert_eq!(p.maps[0].role, "roughness");
}

#[test]
fn roles_and_categories_are_recognised() {
    let m = preview(&["Natural/Wood Planks"], &["normal"]);
    assert!(material_has_role(&m, "normal"));
    assert!(!material_has_role(&m, "norm"));
    assert!(material_has_category(&m, "wood"));
    assert!(material_has_category(&m, "natural/"));
    assert!(!material_has_category(&m, "Wood"));
}

#[test]
fn roughness_traits_follow_categories_and_maps() {
    let t = roughness_traits(&preview(&["Wood", "Brick"], &["normal", "roughness"]));
    assert!(matches!(t.family, SurfaceFamily::Coarse));
    assert!(t.has_relief_map);
    assert!(t.has_roughness_map);
    let w = roughness_traits(&preview(&["wood"], &["displacement"]));
    assert!(matches!(w.family, SurfaceFamily::Wood));
    assert!(w.has_relief_map);
    assert!(!w.has_roughness_map);
    let m = roughness_traits(&preview(&["metal"], &["occlusionRoughnessMetallic"]));
    assert!(matches!(m.family, SurfaceFamily::Metal));
    assert!(m.has_roughness_map);
    let o = roughness_traits(&preview(&["plaster"], &[]));
    assert!(matches!(o.family, SurfaceFamily::Other));
    assert!(!o.has_relief_map);
}

#[test]
fn metallic_previews() {
    assert!(previews_as_metallic(&preview(&["Metal Plates"], &[])));
    assert!(previews_as_metallic(&preview(&[], &["metallic"])));
    assert!(!previews_as_metallic(&preview(&["wood"], &["roughness"])));
}

#[test]
fn accent_channels_hash_the_name() {
    assert_eq!(material_accent_channels(None), None);
    assert_eq!(material_accent_channels(Some("")), None);
    assert_eq!(material_accent_channels(Some("ab")), Some((0x21, 0x0c, 0)));
    assert_eq!(material_accent_channels(Some("a")), Some((97, 0, 0)));
}
