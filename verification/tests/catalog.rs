use soyel::catalog::{
    category_filter, category_label, search_materials, texture_categories_from_counts, PolyHavenAsset, PolyHavenMaterial,
};

fn asset(name: &str, asset_type: u8, downloads: Option<u64>, date: Option<i64>, tags: &[&str]) -> PolyHavenAsset {
    PolyHavenAsset {
        name: name.to_string(),
        asset_type,
        date_published: date,
        download_count: downloads,
        authors: None,
        categories: Some(vec!["brick".to_string()]),
        tags: Some(tags.iter().map(|t| t.to_string()).collect()),
        max_resolution: Some(vec![8192, 4096]),
        dimensions: None,
        thumbnail_url: Some(format!("https://cdn/{name}.png")),
    }
}

fn catalog() -> Vec<(String, PolyHavenAsset)> {
    vec![
        ("red_brick".to_string(), asset("Red Brick", 1, Some(50), Some(300), &["wall"])),
        ("oak_floor".to_string(), asset("Oak Floor", 1, Some(500), Some(100), &["Wood"])),
        ("sky_hdri".to_string(), asset("Sky", 0, Some(9000), Some(500), &[])),
        ("old_plank".to_string(), asset("Old Plank", 1, None, None, &["wood"])),
        ("blue_tile".to_string(), asset("Blue Tile", 1, Some(500), Some(200), &[])),
    ]
}

fn ids(result: &[PolyHavenMaterial]) -> Vec<&str> {
    result.iter().map(|m| m.id.as_str()).collect()
}

#[test]
fn assets_convert_to_materials() {
    let mut a = asset("Rock", 1, None, Some(7), &[]);
    a.authors = Some(vec![("Rob".to_string(), "All".to_string()), ("Ann".to_string(), String::new())]);
    a.categories = None;
    let m = PolyHavenMaterial::from_asset("rock".to_string(), a).unwrap();
    assert_eq!(m.id, "rock");
    assert_eq!(m.name, "Rock");
    assert_eq!(m.authors, vec!["Rob (All)".to_string(), "Ann".to_string()]);
    assert!(m.categories.is_empty());
    assert_eq!(m.download_count, 0);
    assert_eq!(m.date_published, Some(7));
    assert_eq!(m.max_resolution, Some(vec![8192, 4096]));
    assert!(PolyHavenMaterial::from_asset("sky".to_string(), asset("Sky", 0, None, None, &[])).is_none());
}

#[test]
fn category_labels() {
    assert_eq!(category_label("all"), "All");
    assert_eq!(category_label("brick"), "Brick");
    assert_eq!(category_label("brick/red-stone"), "Brick / Red Stone");
    assert_eq!(category_label("man made--tiles"), "Man Made Tiles");
    assert_eq!(category_label("a//b"), "A /  / B");
}

#[test]
fn categories_list_all_first_then_by_count_then_label() {
    let listing = texture_categories_from_counts(vec![
        ("wood".to_string(), 10),
        ("brick/red".to_string(), 30),
        ("all".to_string(), 5),
        ("tiles".to_string(), 30),
        ("aged".to_string(), 10),
    ]);
    let summary: Vec<(&str, &str, u64)> = listing.iter().map(|c| (c.id.as_str(), c.name.as_str(), c.count)).collect();
    assert_eq!(
        summary,
        vec![
            ("all", "All", 5),
            ("brick/red", "Brick / Red", 30),
            ("tiles", "Tiles", 30),
            ("aged", "Aged", 10),
            ("wood", "Wood", 10),
        ]
    );
}

#[test]
fn search_defaults_to_popularity_and_skips_non_textures() {
    let result = search_materials(catalog(), None, None, None);
    assert_eq!(ids(&result), vec!["oak_floor", "blue_tile", "red_brick", "old_plank"]);
}

#[test]
fn search_by_latest_puts_undated_last() {
    let result = search_materials(catalog(), None, Some("latest".to_string()), None);
    assert_eq!(ids(&result), vec!["red_brick", "blue_tile", "oak_floor", "old_plank"]);
}

#[test]
fn search_by_name() {
    let result = search_materials(catalog(), None, Some("name".to_string()), None);
    assert_eq!(ids(&result), vec!["blue_tile", "oak_floor", "old_plank", "red_brick"]);
}

#[test]
fn search_filters_on_lowercased_query() {
    let result = search_materials(catalog(), Some("WOOD".to_string()), None, None);
    assert_eq!(ids(&result), vec!["oak_floor", "old_plank"]);
    let by_id = search_materials(catalog(), Some("tile".to_string()), None, None);
    assert_eq!(ids(&by_id), vec!["blue_tile"]);
    let by_category = search_materials(catalog(), Some("bri".to_string()), None, None);
    assert_eq!(by_category.len(), 4);
    assert!(search_materials(catalog(), Some("sky".to_string()), None, None).is_empty());
}

#[test]
fn search_limit_is_clamped() {
    assert_eq!(search_materials(catalog(), None, None, Some(2)).len(), 2);
    assert_eq!(search_materials(catalog(), None, None, Some(0)).len(), 1);
    assert_eq!(search_materials(catalog(), None, None, Some(1000)).len(), 4);
}

#[test]
fn category_filter_skips_blank_and_all() {
    assert_eq!(category_filter(None), None);
    assert_eq!(category_filter(Some("  ".to_string())), None);
    assert_eq!(category_filter(Some(" all ".to_string())), None);
    assert_eq!(category_filter(Some(" brick ".to_string())), Some("brick".to_string()));
    assert_eq!(category_filter(Some("All".to_string())), Some("All".to_string()));
}
