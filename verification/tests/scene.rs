use soyel::scene::{
    default_cornell_scene_layout, is_snapshot_node_effectively_visible, material_index_for_node, plan_scene,
    validate_triangle_mesh, MaterialSlot,
    MeshLayout, MeshShape, SceneError, SceneLayout, SceneNodeLayout, ScenePlan,
};

fn node(id: &str, parent: Option<&str>, mesh: Option<&str>, material: Option<&str>, visible: bool) -> (String, SceneNodeLayout) {
    (
        id.to_string(),
        SceneNodeLayout {
            id: id.to_string(),
            name: id.to_uppercase(),
            parent_id: parent.map(str::to_string),
            mesh_id: mesh.map(str::to_string),
            default_material: material.map(str::to_string),
            visible,
        },
    )
}

fn triangle_mesh_scene_layout(root_visible: bool) -> SceneLayout {
    let root = (
        "root".to_string(),
        SceneNodeLayout {
            id: "root".to_string(),
            name: "Root".to_string(),
            parent_id: None,
            mesh_id: None,
            default_material: None,
            visible: root_visible,
        },
    );
    let child = (
        "triangle".to_string(),
        SceneNodeLayout {
            id: "triangle".to_string(),
            name: "Triangle".to_string(),
            parent_id: Some("root".to_string()),
            mesh_id: Some("triangleMesh".to_string()),
            default_material: Some("mat".to_string()),
            visible: true,
        },
    );
    SceneLayout {
        revision: 7,
        nodes: vec![root, child],
        meshes: vec![MeshLayout {
            id: "triangleMesh".to_string(),
            shape: MeshShape::TriangleMesh { position_count: 9, indices: vec![0, 1, 2] },
        }],
        materials: vec!["mat".to_string()],
    }
}

fn instance_count(layout: &SceneLayout, plan: &ScenePlan) -> usize {
    plan.draws
        .iter()
        .map(|d| match layout.meshes[d.mesh_index].shape {
            MeshShape::Plane => 1,
            MeshShape::Box => 6,
            MeshShape::TriangleMesh { .. } => 1,
        })
        .sum()
}

fn slot_asset(slot: &MaterialSlot) -> Option<&str> {
    match slot {
        MaterialSlot::Asset(id) => Some(id.as_str()),
        _ => None,
    }
}

#[test]
fn default_scene_snapshot_converts_all_cornell_nodes() {
    let snapshot = default_cornell_scene_layout();
    let plan = plan_scene(&snapshot, None, false).ok().unwrap();

    assert_eq!(snapshot.nodes.len(), 8);
    assert_eq!(instance_count(&snapshot, &plan), 18);
    assert_eq!(plan.draws.len(), 8);
    assert_eq!(plan.materials.len(), 8);
    assert!(
        plan.materials.iter().any(|slot| slot_asset(slot) == Some("lightMat")),
        "converted scene should preserve the emissive area-light material"
    );
}

#[test]
fn triangle_mesh_snapshot_converts_to_lupin_mesh() {
    let snapshot = triangle_mesh_scene_layout(true);
    let plan = plan_scene(&snapshot, None, false).ok().unwrap();

    assert_eq!(instance_count(&snapshot, &plan), 1);
    assert_eq!(plan.draws.len(), 1);
    let draw = &plan.draws[0];
    assert_eq!(draw.node_index, 1);
    match &snapshot.meshes[draw.mesh_index].shape {
        MeshShape::TriangleMesh { position_count, indices } => {
            assert_eq!(position_count / 3, 3);
            assert_eq!(indices, &vec![0, 1, 2]);
        },
        _ => panic!("expected the triangle mesh"),
    }
    assert_eq!(plan.materials.len(), 1);
    assert_eq!(slot_asset(&plan.materials[0]), Some("mat"));
}

#[test]
fn hidden_parent_hides_triangle_mesh_child() {
    let snapshot = triangle_mesh_scene_layout(false);
    let error = match plan_scene(&snapshot, None, false) {
        Err(e) => e.message(),
        Ok(_) => panic!("expected an error"),
    };

    assert!(error.contains("contains no visible renderable nodes"), "unexpected error: {error}");
    assert_eq!(error, "scene snapshot revision 7 contains no visible renderable nodes");
}

#[test]
fn cornell_draws_follow_node_key_order() {
    let snapshot = default_cornell_scene_layout();
    let plan = plan_scene(&snapshot, None, false).ok().unwrap();
    let keys: Vec<&str> = plan.draws.iter().map(|d| snapshot.nodes[d.node_index].0.as_str()).collect();
    assert_eq!(
        keys,
        vec!["area-light", "back-wall", "ceiling", "floor", "left-wall", "right-wall", "sample-block", "tall-block"]
    );
    let first_slots: Vec<Option<&str>> = plan.materials.iter().map(slot_asset).collect();
    assert_eq!(first_slots[0], Some("lightMat"));
    assert_eq!(first_slots[1], Some("backWallMat"));
}

#[test]
fn override_replaces_the_selected_surface_material() {
    let snapshot = default_cornell_scene_layout();
    let plan = plan_scene(&snapshot, Some("sample-block"), true).ok().unwrap();
    let draw = plan
        .draws
        .iter()
        .find(|d| snapshot.nodes[d.node_index].0 == "sample-block")
        .unwrap();
    assert!(matches!(plan.materials[draw.material_index as usize], MaterialSlot::Override));
    assert!(!plan.materials.iter().any(|slot| slot_asset(slot) == Some("sampleBlockMat")));

    let without_material = plan_scene(&snapshot, Some("sample-block"), false).ok().unwrap();
    assert!(without_material.materials.iter().any(|slot| slot_asset(slot) == Some("sampleBlockMat")));
    assert!(!without_material.materials.iter().any(|slot| matches!(slot, MaterialSlot::Override)));
}

#[test]
fn shared_materials_and_fallback_are_built_once() {
    let layout = SceneLayout {
        revision: 3,
        nodes: vec![
            node("a", None, Some("plane"), Some("red"), true),
            node("b", None, Some("plane"), Some("red"), true),
            node("c", None, Some("cube"), None, true),
            node("d", None, Some("cube"), None, true),
        ],
        meshes: vec![
            MeshLayout { id: "plane".to_string(), shape: MeshShape::Plane },
            MeshLayout { id: "cube".to_string(), shape: MeshShape::Box },
        ],
        materials: vec!["red".to_string()],
    };
    let plan = plan_scene(&layout, None, false).ok().unwrap();
    assert_eq!(plan.materials.len(), 2);
    assert!(matches!(plan.materials[1], MaterialSlot::Fallback));
    let indices: Vec<u32> = plan.draws.iter().map(|d| d.material_index).collect();
    assert_eq!(indices, vec![0, 0, 1, 1]);
    assert_eq!(instance_count(&layout, &plan), 14);
}

#[test]
fn missing_mesh_is_reported() {
    let layout = SceneLayout {
        revision: 1,
        nodes: vec![node("a", None, Some("ghost"), None, true)],
        meshes: vec![],
        materials: vec![],
    };
    match plan_scene(&layout, None, false) {
        Err(e) => {
            assert!(matches!(e, SceneError::MissingMesh { .. }));
            assert_eq!(e.message(), "scene node a (A) references missing mesh ghost");
        },
        Ok(_) => panic!("expected an error"),
    }
}

#[test]
fn missing_material_is_reported() {
    let layout = SceneLayout {
        revision: 1,
        nodes: vec![node("a", None, Some("plane"), Some("steel"), true)],
        meshes: vec![MeshLayout { id: "plane".to_string(), shape: MeshShape::Plane }],
        materials: vec![],
    };
    match plan_scene(&layout, None, false) {
        Err(e) => assert_eq!(e.message(), "scene node a (A) references missing material steel"),
        Ok(_) => panic!("expected an error"),
    }
}

#[test]
fn hidden_or_meshless_nodes_are_not_checked() {
    let layout = SceneLayout {
        revision: 9,
        nodes: vec![
            node("hidden", None, Some("ghost"), None, false),
            node("empty", None, None, None, true),
            node("shown", None, Some("plane"), None, true),
        ],
        meshes: vec![MeshLayout { id: "plane".to_string(), shape: MeshShape::Plane }],
        materials: vec![],
    };
    let plan = plan_scene(&layout, None, false).ok().unwrap();
    assert_eq!(plan.draws.len(), 1);
    assert_eq!(plan.draws[0].node_index, 2);
}

#[test]
fn triangle_mesh_errors() {
    match validate_triangle_mesh(8, &vec![0, 1, 2]) {
        Err(e) => assert_eq!(e.message(), "triangle mesh positions length 8 is not divisible by 3"),
        Ok(_) => panic!("expected an error"),
    }
    match validate_triangle_mesh(9, &vec![0, 1]) {
        Err(e) => assert_eq!(e.message(), "triangle mesh index length 2 does not describe whole triangles"),
        Ok(_) => panic!("expected an error"),
    }
    match validate_triangle_mesh(9, &vec![0, 1, 2, 0]) {
        Err(e) => assert_eq!(e.message(), "triangle mesh index length 4 does not describe whole triangles"),
        Ok(_) => panic!("expected an error"),
    }
    match validate_triangle_mesh(9, &vec![0, 1, 3]) {
        Err(e) => assert_eq!(e.message(), "triangle mesh index 3 references only 3 vertices"),
        Ok(_) => panic!("expected an error"),
    }
    assert_eq!(validate_triangle_mesh(12, &vec![0, 1, 3, 3, 2, 1]).ok(), Some(4));
}

#[test]
fn bad_triangle_mesh_fails_the_plan() {
    let mut layout = triangle_mesh_scene_layout(true);
    layout.meshes[0].shape = MeshShape::TriangleMesh { position_count: 9, indices: vec![0, 1, 5] };
    match plan_scene(&layout, None, false) {
        Err(e) => assert_eq!(e.message(), "triangle mesh index 5 references only 3 vertices"),
        Ok(_) => panic!("expected an error"),
    }
}

#[test]
fn visibility_follows_ancestors() {
    let nodes = vec![
        node("root", None, None, None, true),
        node("mid", Some("root"), None, None, false),
        node("leaf", Some("mid"), None, None, true),
        node("orphan", Some("missing"), None, None, true),
        node("loop-a", Some("loop-b"), None, None, true),
        node("loop-b", Some("loop-a"), None, None, true),
    ];
    assert!(is_snapshot_node_effectively_visible(&nodes, 0));
    assert!(!is_snapshot_node_effectively_visible(&nodes, 1));
    assert!(!is_snapshot_node_effectively_visible(&nodes, 2));
    assert!(is_snapshot_node_effectively_visible(&nodes, 3));
    assert!(!is_snapshot_node_effectively_visible(&nodes, 4));
    assert!(!is_snapshot_node_effectively_visible(&nodes, 5));
}

#[test]
fn override_key_shared_with_a_like_named_material() {
    let layout = SceneLayout {
        revision: 2,
        nodes: vec![
            node("a", None, Some("plane"), Some("override:b"), true),
            node("b", None, Some("plane"), None, true),
        ],
        meshes: vec![MeshLayout { id: "plane".to_string(), shape: MeshShape::Plane }],
        materials: vec!["override:b".to_string()],
    };
    let plan = plan_scene(&layout, Some("b"), true).ok().unwrap();
    assert_eq!(plan.materials.len(), 1);
    assert_eq!(slot_asset(&plan.materials[0]), Some("override:b"));
    let indices: Vec<u32> = plan.draws.iter().map(|d| d.material_index).collect();
    assert_eq!(indices, vec![0, 0]);
}

#[test]
fn material_lookup_is_idempotent() {
    let layout = default_cornell_scene_layout();
    let floor = &layout.nodes[5].1;
    let mut keys: Vec<String> = Vec::new();
    let mut slots: Vec<MaterialSlot> = Vec::new();
    let first = material_index_for_node(&mut keys, &mut slots, &layout, floor, None, false).ok();
    assert_eq!(first, Some(0));
    assert_eq!(slots.len(), 1);
    let again = material_index_for_node(&mut keys, &mut slots, &layout, floor, None, false).ok();
    assert_eq!(again, Some(0));
    assert_eq!(slots.len(), 1);
    assert_eq!(keys, vec!["floorMat".to_string()]);

    let light = &layout.nodes[7].1;
    assert_eq!(material_index_for_node(&mut keys, &mut slots, &layout, light, None, false).ok(), Some(1));
    let overridden = material_index_for_node(&mut keys, &mut slots, &layout, floor, Some("floor"), true).ok();
    assert_eq!(overridden, Some(2));
    assert!(matches!(slots[2], MaterialSlot::Override));
    assert_eq!(keys[2], "override:floor");
}

#[test]
fn missing_material_lookup_changes_nothing() {
    let layout = SceneLayout {
        revision: 1,
        nodes: vec![node("a", None, Some("plane"), Some("steel"), true)],
        meshes: vec![MeshLayout { id: "plane".to_string(), shape: MeshShape::Plane }],
        materials: vec![],
    };
    let mut keys: Vec<String> = vec!["other".to_string()];
    let mut slots: Vec<MaterialSlot> = vec![MaterialSlot::Fallback];
    match material_index_for_node(&mut keys, &mut slots, &layout, &layout.nodes[0].1, None, false) {
        Err(e) => assert_eq!(e.message(), "scene node a (A) references missing material steel"),
        Ok(_) => panic!("expected an error"),
    }
    assert_eq!(keys, vec!["other".to_string()]);
    assert_eq!(slots.len(), 1);
}
