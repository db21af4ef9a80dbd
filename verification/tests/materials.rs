use soyel::materials::{
    extract_texture_files, file_rank, format_rank, map_rank, material_files_from_tree, material_role,
    normalize_resolution, plan_material_download, resolution_rank, resolve_texture_resolution, role_rank,
    sanitize_path_segment, select_download_files, texture_filename, MaterialFile, TextureFormatNode, TextureMapNode,
    TextureResolutionNode, TextureTree,
};

fn file(map: &str, role: &str, format: &str) -> MaterialFile {
    MaterialFile {
        map: map.to_string(),
        role: role.to_string(),
        resolution: "2k".to_string(),
        format: format.to_string(),
        url: format!("https://dl/{map}.{format}"),
        md5: None,
        size: None,
    }
}

fn format_node(format: &str, url: Option<&str>) -> TextureFormatNode {
    TextureFormatNode { format: format.to_string(), url: url.map(str::to_string), md5: Some("abc".to_string()), size: Some(42) }
}

fn map_node(map: &str, resolutions: Vec<(&str, Vec<TextureFormatNode>)>) -> TextureMapNode {
    TextureMapNode {
        map: map.to_string(),
        resolutions: Some(
            resolutions
                .into_iter()
                .map(|(r, formats)| TextureResolutionNode { resolution: r.to_string(), formats: Some(formats) })
                .collect(),
        ),
    }
}

fn sample_tree() -> TextureTree {
    TextureTree {
        maps: Some(vec![
            map_node("Diffuse", vec![("1k", vec![format_node("jpg", Some("d1"))]), ("4k", vec![format_node("png", Some("d4"))])]),
            map_node("blend", vec![("2k", vec![format_node("blend", Some("b2"))])]),
            map_node("nor_gl", vec![("4k", vec![format_node("exr", Some("n4")), format_node("png", None)])]),
            map_node("Rough", vec![("8k", vec![format_node("jpg", Some("r8"))])]),
        ]),
    }
}

#[test]
fn map_names_get_roles() {
    assert_eq!(material_role("Diffuse"), "baseColor");
    assert_eq!(material_role("albedo"), "baseColor");
    assert_eq!(material_role("Rough"), "roughness");
    assert_eq!(material_role("nor_gl"), "normal");
    assert_eq!(material_role("Metal"), "metallic");
    assert_eq!(material_role("arm"), "occlusionRoughnessMetallic");
    assert_eq!(material_role("AO"), "ambientOcclusion");
    assert_eq!(material_role("Displacement"), "displacement");
    assert_eq!(material_role("height"), "displacement");
    assert_eq!(material_role("spec_ior"), "specular");
    assert_eq!(material_role("mask"), "auxiliary");
}

#[test]
fn ranks_follow_the_tables() {
    assert_eq!(role_rank("baseColor"), 0);
    assert_eq!(role_rank("roughness"), 1);
    assert_eq!(role_rank("normal"), 2);
    assert_eq!(role_rank("metallic"), 3);
    assert_eq!(role_rank("ambientOcclusion"), 4);
    assert_eq!(role_rank("occlusionRoughnessMetallic"), 5);
    assert_eq!(role_rank("displacement"), 6);
    assert_eq!(role_rank("specular"), 7);
    assert_eq!(role_rank("auxiliary"), 8);
    assert_eq!(map_rank("nor_gl"), 0);
    assert_eq!(map_rank("diff"), 0);
    assert_eq!(map_rank("nor_dx"), 1);
    assert_eq!(map_rank("arm"), 2);
    assert_eq!(format_rank("png"), 0);
    assert_eq!(format_rank("jpeg"), 1);
    assert_eq!(format_rank("exr"), 2);
    assert_eq!(format_rank("tif"), 3);
    assert_eq!(file_rank(&file("nor_dx", "normal", "jpg")), (1, 1));
}

#[test]
fn download_selection_keeps_best_file_per_role_in_role_order() {
    let files = vec![
        file("nor_dx", "normal", "png"),
        file("rough", "roughness", "exr"),
        file("diff", "baseColor", "jpg"),
        file("nor_gl", "normal", "png"),
        file("rough", "roughness", "png"),
        file("diff", "baseColor", "jpg"),
        file("mask", "auxiliary", "png"),
    ];
    let selected = select_download_files(files, &Vec::new());
    let summary: Vec<(String, String, String)> =
        selected.iter().map(|f| (f.role.clone(), f.map.clone(), f.format.clone())).collect();
    assert_eq!(
        summary,
        vec![
            ("baseColor".to_string(), "diff".to_string(), "jpg".to_string()),
            ("roughness".to_string(), "rough".to_string(), "png".to_string()),
            ("normal".to_string(), "nor_gl".to_string(), "png".to_string()),
            ("auxiliary".to_string(), "mask".to_string(), "png".to_string()),
        ]
    );
}

#[test]
fn download_selection_honours_requested_roles() {
    let files = vec![file("diff", "baseColor", "png"), file("rough", "roughness", "png"), file("nor_gl", "normal", "png")];
    let selected = select_download_files(files, &vec!["normal".to_string(), "baseColor".to_string()]);
    let roles: Vec<&str> = selected.iter().map(|f| f.role.as_str()).collect();
    assert_eq!(roles, vec!["baseColor", "normal"]);
}

#[test]
fn download_plan_fails_when_nothing_qualifies() {
    let files = vec![file("diff", "baseColor", "png")];
    assert_eq!(
        plan_material_download(files, Some(vec!["normal".to_string()]), "bricks", "2k").err(),
        Some("no downloadable texture maps found for bricks at 2k".to_string())
    );
    let files = vec![file("diff", "baseColor", "png")];
    assert_eq!(plan_material_download(files, None, "bricks", "2k").ok().map(|v| v.len()), Some(1));
}

#[test]
fn resolutions_are_normalized() {
    assert_eq!(normalize_resolution(None), "2k");
    assert_eq!(normalize_resolution(Some("   ".to_string())), "2k");
    assert_eq!(normalize_resolution(Some(" 4K ".to_string())), "4k");
    assert_eq!(normalize_resolution(Some("8k".to_string())), "8k");
    assert_eq!(normalize_resolution(Some("\u{3000}1K\t\n".to_string())), "1k");
    assert_eq!(normalize_resolution(Some("\u{2003}".to_string())), "2k");
}

#[test]
fn resolution_ranks() {
    assert_eq!(resolution_rank("2k"), 2048);
    assert_eq!(resolution_rank(" 4K "), 4096);
    assert_eq!(resolution_rank("512"), 512);
    assert_eq!(resolution_rank("huge"), 0);
    assert_eq!(resolution_rank("k"), 0);
}

#[test]
fn resolving_prefers_request_then_largest_below_then_smallest() {
    let tree = sample_tree();
    assert_eq!(resolve_texture_resolution(&tree, "4k"), "4k");
    assert_eq!(resolve_texture_resolution(&tree, "2k"), "1k");
    assert_eq!(resolve_texture_resolution(&tree, "16k"), "8k");
    assert_eq!(resolve_texture_resolution(&tree, "512"), "1k");
    assert_eq!(resolve_texture_resolution(&TextureTree { maps: None }, "2k"), "2k");
    assert_eq!(resolve_texture_resolution(&TextureTree { maps: None }, "9999999k"), "9999999k");
    assert_eq!(resolve_texture_resolution(&tree, "8k"), "8k");
}

#[test]
fn texture_files_are_listed_for_one_resolution() {
    let tree = sample_tree();
    let files = extract_texture_files(&tree, "4k");
    let summary: Vec<(String, String, String, String)> =
        files.iter().map(|f| (f.map.clone(), f.role.clone(), f.format.clone(), f.url.clone())).collect();
    assert_eq!(
        summary,
        vec![
            ("Diffuse".to_string(), "baseColor".to_string(), "png".to_string(), "d4".to_string()),
            ("nor_gl".to_string(), "normal".to_string(), "exr".to_string(), "n4".to_string()),
        ]
    );
    assert_eq!(files[0].md5, Some("abc".to_string()));
    assert_eq!(files[0].size, Some(42));
    assert!(extract_texture_files(&tree, "2k").is_empty());
}

#[test]
fn material_listing_resolves_and_sorts() {
    let tree = sample_tree();
    let listing = material_files_from_tree("bricks".to_string(), &tree, Some(" 4K".to_string())).unwrap();
    assert_eq!(listing.id, "bricks");
    assert_eq!(listing.resolution, "4k");
    let maps: Vec<&str> = listing.files.iter().map(|f| f.map.as_str()).collect();
    assert_eq!(maps, vec!["Diffuse", "nor_gl"]);
    let fallback = material_files_from_tree("bricks".to_string(), &tree, None).unwrap();
    assert_eq!(fallback.resolution, "1k");
}

#[test]
fn path_segments_are_sanitized() {
    assert_eq!(sanitize_path_segment("red_brick-02"), "red_brick-02");
    assert_eq!(sanitize_path_segment("../etc/passwd"), "___etc_passwd");
    assert_eq!(sanitize_path_segment("ça va"), "_a_va");
    let once = sanitize_path_segment("a b/c");
    assert_eq!(sanitize_path_segment(&once), once);
}

#[test]
fn texture_filenames_join_sanitized_parts() {
    let f = file("nor gl", "normal", "png");
    assert_eq!(texture_filename("red/brick", &f), "red_brick_nor_gl_2k.png");
}
