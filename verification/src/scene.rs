//! The structure of a preview scene snapshot and the plan that turns it into
//! renderable instances: which nodes are drawn, with which mesh and which
//! material slot, and which materials are built.
//!
//! Geometry and colors are not part of this model: the plan says what to
//! build, and the renderer builds it from the snapshot's numbers.

use vstd::prelude::*;
use crate::order::{
    is_stable_order, key_views, lemma_stable_order_distinct, lemma_stable_order_exists, lists, placed_before,
    sorted_positions, stable_sort_by_keys, KeyView, SortKey,
};
use crate::materials::{opt_view, strings_view};
use crate::text::{
    append_decimal, append_str, chars_of, concat2, decimal_digits, lemma_seq_lt_irreflexive, lemma_seq_lt_transitive, owned,
    seq_lt, str_equal, string_from_chars,
};

verus! {

/// The shape of a mesh asset. A triangle mesh keeps the length of its flat
/// position list and its index list.
pub enum MeshShape {
    Plane,
    Box,
    TriangleMesh { position_count: usize, indices: Vec<u32> },
}

/// A mesh asset of the snapshot.
pub struct MeshLayout {
    pub id: String,
    pub shape: MeshShape,
}

/// A scene node: identity, hierarchy, mesh, the material bound to its
/// `default` slot, and its own visibility flag.
pub struct SceneNodeLayout {
    pub id: String,
    pub name: String,
    pub parent_id: Option<String>,
    pub mesh_id: Option<String>,
    pub default_material: Option<String>,
    pub visible: bool,
}

/// The structure of a scene snapshot: nodes under their keys, meshes, and
/// the ids of the material assets.
pub struct SceneLayout {
    pub revision: u64,
    pub nodes: Vec<(String, SceneNodeLayout)>,
    pub meshes: Vec<MeshLayout>,
    pub materials: Vec<String>,
}

/// Where a material of the built scene comes from.
pub enum MaterialSlot {
    /// The applied Poly Haven material overriding the selected surface.
    Override,
    /// The neutral material of nodes without a `default` binding.
    Fallback,
    /// A material asset of the snapshot, by id.
    Asset(String),
}

/// The value of a [`MaterialSlot`].
pub enum SlotView {
    Override,
    Fallback,
    Asset(Seq<char>),
}

impl View for MaterialSlot {
    type V = SlotView;

    open spec fn view(&self) -> SlotView {
        match self {
            MaterialSlot::Override => SlotView::Override,
            MaterialSlot::Fallback => SlotView::Fallback,
            MaterialSlot::Asset(id) => SlotView::Asset(id@),
        }
    }
}

/// One node to draw: its position in the snapshot's node list, the position
/// of its mesh in the mesh list, and its material slot.
pub struct PlannedDraw {
    pub node_index: usize,
    pub mesh_index: usize,
    pub material_index: u32,
}

/// What the renderer builds: material slots in order, and draws in node key
/// order.
pub struct ScenePlan {
    pub materials: Vec<MaterialSlot>,
    pub draws: Vec<PlannedDraw>,
}

/// Why a snapshot cannot be built.
pub enum SceneError {
    MissingMesh { node_id: String, node_name: String, mesh_id: String },
    MissingMaterial { node_id: String, node_name: String, material_id: String },
    PositionsNotTriples { len: usize },
    IndicesNotTriangles { len: usize },
    IndexOutOfRange { index: u32, vertex_count: usize },
    NothingVisible { revision: u64 },
}

/// The value of a [`SceneError`].
pub enum SceneErrorView {
    MissingMesh { node_id: Seq<char>, node_name: Seq<char>, mesh_id: Seq<char> },
    MissingMaterial { node_id: Seq<char>, node_name: Seq<char>, material_id: Seq<char> },
    PositionsNotTriples { len: usize },
    IndicesNotTriangles { len: usize },
    IndexOutOfRange { index: u32, vertex_count: usize },
    NothingVisible { revision: u64 },
}

impl View for SceneError {
    type V = SceneErrorView;

    open spec fn view(&self) -> SceneErrorView {
        match self {
            SceneError::MissingMesh { node_id, node_name, mesh_id } => SceneErrorView::MissingMesh {
                node_id: node_id@,
                node_name: node_name@,
                mesh_id: mesh_id@,
            },
            SceneError::MissingMaterial { node_id, node_name, material_id } => SceneErrorView::MissingMaterial {
                node_id: node_id@,
                node_name: node_name@,
                material_id: material_id@,
            },
            SceneError::PositionsNotTriples { len } => SceneErrorView::PositionsNotTriples { len: *len },
            SceneError::IndicesNotTriangles { len } => SceneErrorView::IndicesNotTriangles { len: *len },
            SceneError::IndexOutOfRange { index, vertex_count } => SceneErrorView::IndexOutOfRange {
                index: *index,
                vertex_count: *vertex_count,
            },
            SceneError::NothingVisible { revision } => SceneErrorView::NothingVisible { revision: *revision },
        }
    }
}

/// The message of a scene error.
pub open spec fn scene_error_message(e: SceneErrorView) -> Seq<char> {
    match e {
        SceneErrorView::MissingMesh { node_id, node_name, mesh_id } => "scene node "@ + node_id + " ("@ + node_name
            + ") references missing mesh "@ + mesh_id,
        SceneErrorView::MissingMaterial { node_id, node_name, material_id } => "scene node "@ + node_id + " ("@
            + node_name + ") references missing material "@ + material_id,
        SceneErrorView::PositionsNotTriples { len } => "triangle mesh positions length "@ + decimal_digits(len as nat)
            + " is not divisible by 3"@,
        SceneErrorView::IndicesNotTriangles { len } => "triangle mesh index length "@ + decimal_digits(len as nat)
            + " does not describe whole triangles"@,
        SceneErrorView::IndexOutOfRange { index, vertex_count } => "triangle mesh index "@ + decimal_digits(
            index as nat,
        ) + " references only "@ + decimal_digits(vertex_count as nat) + " vertices"@,
        SceneErrorView::NothingVisible { revision } => "scene snapshot revision "@ + decimal_digits(revision as nat)
            + " contains no visible renderable nodes"@,
    }
}

impl SceneError {
    /// The human-readable message of this error.
    pub fn message(&self) -> (r: String)
        ensures
            r@ == scene_error_message(self@),
    {
        let mut out: Vec<char> = Vec::new();
        match self {
            SceneError::MissingMesh { node_id, node_name, mesh_id } => {
                append_str(&mut out, "scene node ");
                append_str(&mut out, node_id.as_str());
                append_str(&mut out, " (");
                append_str(&mut out, node_name.as_str());
                append_str(&mut out, ") references missing mesh ");
                append_str(&mut out, mesh_id.as_str());
            },
            SceneError::MissingMaterial { node_id, node_name, material_id } => {
                append_str(&mut out, "scene node ");
                append_str(&mut out, node_id.as_str());
                append_str(&mut out, " (");
                append_str(&mut out, node_name.as_str());
                append_str(&mut out, ") references missing material ");
                append_str(&mut out, material_id.as_str());
            },
            SceneError::PositionsNotTriples { len } => {
                append_str(&mut out, "triangle mesh positions length ");
                append_decimal(&mut out, *len as u64);
                append_str(&mut out, " is not divisible by 3");
            },
            SceneError::IndicesNotTriangles { len } => {
                append_str(&mut out, "triangle mesh index length ");
                append_decimal(&mut out, *len as u64);
                append_str(&mut out, " does not describe whole triangles");
            },
            SceneError::IndexOutOfRange { index, vertex_count } => {
                append_str(&mut out, "triangle mesh index ");
                append_decimal(&mut out, *index as u64);
                append_str(&mut out, " references only ");
                append_decimal(&mut out, *vertex_count as u64);
                append_str(&mut out, " vertices");
            },
            SceneError::NothingVisible { revision } => {
                append_str(&mut out, "scene snapshot revision ");
                append_decimal(&mut out, *revision);
                append_str(&mut out, " contains no visible renderable nodes");
            },
        }
        string_from_chars(&out)
    }
}

// ---------------------------------------------------------------------------
// Triangle meshes.
// ---------------------------------------------------------------------------

/// The first index at or after `from` that names a vertex beyond
/// `vertex_count`, if any.
pub open spec fn first_bad_index(indices: Seq<u32>, vertex_count: nat, from: int) -> Option<int>
    decreases indices.len() - from,
{
    if from >= indices.len() || from < 0 {
        None
    } else if indices[from] >= vertex_count {
        Some(from)
    } else {
        first_bad_index(indices, vertex_count, from + 1)
    }
}

/// The check of a triangle mesh: positions come in triples, indices
/// describe at least one whole triangle, and every index names a vertex.
/// Gives the vertex count.
pub open spec fn triangle_mesh_check(position_count: usize, indices: Seq<u32>) -> Result<usize, SceneErrorView> {
    if position_count % 3 != 0 {
        Err(SceneErrorView::PositionsNotTriples { len: position_count })
    } else if indices.len() < 3 || indices.len() % 3 != 0 {
        Err(SceneErrorView::IndicesNotTriangles { len: indices.len() as usize })
    } else {
        match first_bad_index(indices, (position_count / 3) as nat, 0) {
            Some(i) => Err(SceneErrorView::IndexOutOfRange { index: indices[i], vertex_count: (position_count / 3) as usize }),
            None => Ok((position_count / 3) as usize),
        }
    }
}

/// Checks a triangle mesh with `position_count` flat coordinates and the
/// given indices; returns its vertex count.
pub fn validate_triangle_mesh(position_count: usize, indices: &Vec<u32>) -> (r: Result<usize, SceneError>)
    ensures
        match r {
            Ok(n) => triangle_mesh_check(position_count, indices@) == Ok::<usize, SceneErrorView>(n),
            Err(e) => triangle_mesh_check(position_count, indices@) == Err::<usize, SceneErrorView>(e@),
        },
{
    if position_count % 3 != 0 {
        return Err(SceneError::PositionsNotTriples { len: position_count });
    }
    let vertex_count = position_count / 3;
    if indices.len() < 3 || indices.len() % 3 != 0 {
        return Err(SceneError::IndicesNotTriangles { len: indices.len() });
    }
    let mut i: usize = 0;
    while i < indices.len()
        invariant
            i <= indices@.len(),
            vertex_count == position_count / 3,
            position_count % 3 == 0,
            indices@.len() >= 3,
            indices@.len() % 3 == 0,
            first_bad_index(indices@, vertex_count as nat, 0) == first_bad_index(indices@, vertex_count as nat, i as int),
        decreases indices.len() - i,
    {
        if indices[i] as usize >= vertex_count {
            assert(first_bad_index(indices@, vertex_count as nat, i as int) == Some(i as int));
            assert(triangle_mesh_check(position_count, indices@) == Err::<usize, SceneErrorView>(
                SceneErrorView::IndexOutOfRange { index: indices@[i as int], vertex_count: vertex_count },
            ));
            return Err(SceneError::IndexOutOfRange { index: indices[i], vertex_count });
        }
        i = i + 1;
    }
    Ok(vertex_count)
}

// ---------------------------------------------------------------------------
// Lookups.
// ---------------------------------------------------------------------------

/// The position of the first node stored under `key`.
pub open spec fn node_position(nodes: Seq<(String, SceneNodeLayout)>, key: Seq<char>) -> Option<int>
    decreases nodes.len(),
{
    if nodes.len() == 0 {
        None
    } else {
        match node_position(nodes.drop_last(), key) {
            Some(i) => Some(i),
            None => if nodes.last().0@ == key {
                Some(nodes.len() - 1)
            } else {
                None
            },
        }
    }
}

/// The position of the first mesh with id `id`.
pub open spec fn mesh_position(meshes: Seq<MeshLayout>, id: Seq<char>) -> Option<int>
    decreases meshes.len(),
{
    if meshes.len() == 0 {
        None
    } else {
        match mesh_position(meshes.drop_last(), id) {
            Some(i) => Some(i),
            None => if meshes.last().id@ == id {
                Some(meshes.len() - 1)
            } else {
                None
            },
        }
    }
}

/// The snapshot has a material asset with id `id`.
pub open spec fn has_material(materials: Seq<String>, id: Seq<char>) -> bool {
    exists|i: int| 0 <= i < materials.len() && (#[trigger] materials[i])@ == id
}

proof fn lemma_node_position_found(nodes: Seq<(String, SceneNodeLayout)>, key: Seq<char>, k: int)
    requires
        0 <= k <= nodes.len(),
        forall|j: int| 0 <= j < k ==> (#[trigger] nodes[j]).0@ != key,
    ensures
        node_position(nodes.subrange(0, k), key) is None,
    decreases k,
{
    if k > 0 {
        let p = nodes.subrange(0, k);
        assert(p.drop_last() =~= nodes.subrange(0, k - 1));
        lemma_node_position_found(nodes, key, k - 1);
    }
}

proof fn lemma_node_position_extend(nodes: Seq<(String, SceneNodeLayout)>, key: Seq<char>, k: int)
    requires
        0 <= k <= nodes.len(),
        node_position(nodes.subrange(0, k), key) is Some,
    ensures
        node_position(nodes, key) == node_position(nodes.subrange(0, k), key),
    decreases nodes.len() - k,
{
    if k < nodes.len() {
        let p = nodes.subrange(0, k + 1);
        assert(p.drop_last() =~= nodes.subrange(0, k));
        lemma_node_position_extend(nodes, key, k + 1);
    } else {
        assert(nodes.subrange(0, k) =~= nodes);
    }
}

proof fn lemma_node_position_range(nodes: Seq<(String, SceneNodeLayout)>, key: Seq<char>)
    ensures
        node_position(nodes, key) matches Some(i) ==> 0 <= i < nodes.len() && nodes[i].0@ == key,
    decreases nodes.len(),
{
    if nodes.len() > 0 {
        lemma_node_position_range(nodes.drop_last(), key);
        if let Some(i) = node_position(nodes.drop_last(), key) {
            assert(nodes[i] == nodes.drop_last()[i]);
        }
    }
}

fn find_node(nodes: &Vec<(String, SceneNodeLayout)>, key: &String) -> (r: Option<usize>)
    ensures
        match r {
            Some(i) => node_position(nodes@, key@) == Some(i as int),
            None => node_position(nodes@, key@) is None,
        },
{
    let mut i: usize = 0;
    while i < nodes.len()
        invariant
            i <= nodes@.len(),
            forall|j: int| 0 <= j < i ==> (#[trigger] nodes@[j]).0@ != key@,
        decreases nodes.len() - i,
    {
        if nodes[i].0 == *key {
            proof {
                lemma_node_position_found(nodes@, key@, i as int);
                let p = nodes@.subrange(0, i + 1);
                assert(p.drop_last() =~= nodes@.subrange(0, i as int));
                lemma_node_position_extend(nodes@, key@, i + 1);
            }
            return Some(i);
        }
        i = i + 1;
    }
    proof {
        lemma_node_position_found(nodes@, key@, i as int);
        assert(nodes@.subrange(0, i as int) =~= nodes@);
    }
    None
}

proof fn lemma_mesh_position_found(meshes: Seq<MeshLayout>, id: Seq<char>, k: int)
    requires
        0 <= k <= meshes.len(),
        forall|j: int| 0 <= j < k ==> (#[trigger] meshes[j]).id@ != id,
    ensures
        mesh_position(meshes.subrange(0, k), id) is None,
    decreases k,
{
    if k > 0 {
        let p = meshes.subrange(0, k);
        assert(p.drop_last() =~= meshes.subrange(0, k - 1));
        lemma_mesh_position_found(meshes, id, k - 1);
    }
}

proof fn lemma_mesh_position_extend(meshes: Seq<MeshLayout>, id: Seq<char>, k: int)
    requires
        0 <= k <= meshes.len(),
        mesh_position(meshes.subrange(0, k), id) is Some,
    ensures
        mesh_position(meshes, id) == mesh_position(meshes.subrange(0, k), id),
    decreases meshes.len() - k,
{
    if k < meshes.len() {
        let p = meshes.subrange(0, k + 1);
        assert(p.drop_last() =~= meshes.subrange(0, k));
        lemma_mesh_position_extend(meshes, id, k + 1);
    } else {
        assert(meshes.subrange(0, k) =~= meshes);
    }
}

fn find_mesh(meshes: &Vec<MeshLayout>, id: &String) -> (r: Option<usize>)
    ensures
        match r {
            Some(i) => mesh_position(meshes@, id@) == Some(i as int) && i < meshes@.len(),
            None => mesh_position(meshes@, id@) is None,
        },
{
    let mut i: usize = 0;
    while i < meshes.len()
        invariant
            i <= meshes@.len(),
            forall|j: int| 0 <= j < i ==> (#[trigger] meshes@[j]).id@ != id@,
        decreases meshes.len() - i,
    {
        if meshes[i].id == *id {
            proof {
                lemma_mesh_position_found(meshes@, id@, i as int);
                let p = meshes@.subrange(0, i + 1);
                assert(p.drop_last() =~= meshes@.subrange(0, i as int));
                lemma_mesh_position_extend(meshes@, id@, i + 1);
            }
            return Some(i);
        }
        i = i + 1;
    }
    proof {
        lemma_mesh_position_found(meshes@, id@, i as int);
        assert(meshes@.subrange(0, i as int) =~= meshes@);
    }
    None
}

fn material_exists(materials: &Vec<String>, id: &String) -> (r: bool)
    ensures
        r == has_material(materials@, id@),
{
    let mut i: usize = 0;
    while i < materials.len()
        invariant
            i <= materials@.len(),
            forall|j: int| 0 <= j < i ==> (#[trigger] materials@[j])@ != id@,
        decreases materials.len() - i,
    {
        if materials[i] == *id {
            return true;
        }
        i = i + 1;
    }
    false
}

// ---------------------------------------------------------------------------
// Visibility.
// ---------------------------------------------------------------------------

/// Walks from the node at `pos` up its parents: hidden as soon as a node on
/// the way is hidden or a node id repeats (a cycle); visible when a node has
/// no parent or its parent is not in the snapshot. `fuel` bounds the walk.
pub open spec fn visible_walk(nodes: Seq<(String, SceneNodeLayout)>, pos: int, visited: Seq<Seq<char>>, fuel: nat) -> bool
    decreases fuel,
{
    if fuel == 0 || pos < 0 || pos >= nodes.len() {
        false
    } else {
        let node = nodes[pos].1;
        if !node.visible {
            false
        } else {
            match node.parent_id {
                None => true,
                Some(parent) => if visited.contains(node.id@) {
                    false
                } else {
                    match node_position(nodes, parent@) {
                        None => true,
                        Some(q) => visible_walk(nodes, q, visited.push(node.id@), (fuel - 1) as nat),
                    }
                },
            }
        }
    }
}

/// The node at `pos` is drawn only if it and all its ancestors are visible.
pub open spec fn effectively_visible(nodes: Seq<(String, SceneNodeLayout)>, pos: int) -> bool {
    visible_walk(nodes, pos, Seq::empty(), (nodes.len() + 1) as nat)
}

fn seen(visited: &Vec<String>, id: &String) -> (r: bool)
    ensures
        r == visited@.map_values(|s: String| s@).contains(id@),
{
    let ghost vv = visited@.map_values(|s: String| s@);
    let mut i: usize = 0;
    while i < visited.len()
        invariant
            i <= visited@.len(),
            vv == visited@.map_values(|s: String| s@),
            forall|j: int| 0 <= j < i ==> vv[j] != id@,
        decreases visited.len() - i,
    {
        if visited[i] == *id {
            assert(vv[i as int] == id@);
            return true;
        }
        i = i + 1;
    }
    false
}

/// Whether the node at position `pos` is drawn: it and every ancestor are
/// visible (a parent missing from the snapshot ends the walk; a cycle hides
/// the node).
pub fn is_snapshot_node_effectively_visible(nodes: &Vec<(String, SceneNodeLayout)>, pos: usize) -> (r: bool)
    requires
        pos < nodes@.len(),
    ensures
        r == effectively_visible(nodes@, pos as int),
{
    let mut current: usize = pos;
    let mut visited: Vec<String> = Vec::new();
    let mut remaining: usize = nodes.len();
    assert(visited@.map_values(|s: String| s@) =~= Seq::<Seq<char>>::empty());
    loop
        invariant
            current < nodes@.len(),
            remaining <= nodes@.len(),
            effectively_visible(nodes@, pos as int) == visible_walk(
                nodes@,
                current as int,
                visited@.map_values(|s: String| s@),
                (remaining + 1) as nat,
            ),
        decreases remaining,
    {
        let node = &nodes[current].1;
        if !node.visible {
            return false;
        }
        match &node.parent_id {
            None => {
                return true;
            },
            Some(parent) => {
                if seen(&visited, &node.id) {
                    return false;
                }
                match find_node(nodes, parent) {
                    None => {
                        return true;
                    },
                    Some(q) => {
                        proof {
                            lemma_node_position_range(nodes@, parent@);
                        }
                        let ghost before = visited@.map_values(|s: String| s@);
                        visited.push(node.id.clone());
                        assert(visited@.map_values(|s: String| s@) =~= before.push(node.id@));
                        if remaining == 0 {
                            assert(!visible_walk(nodes@, q as int, before.push(node.id@), 0));
                            return false;
                        }
                        current = q;
                        remaining = remaining - 1;
                    },
                }
            },
        }
    }
}

// ---------------------------------------------------------------------------
// The plan.
// ---------------------------------------------------------------------------

/// The sort keys of the nodes: their map keys, compared as text.
pub open spec fn node_keys(nodes: Seq<(String, SceneNodeLayout)>) -> Seq<KeyView> {
    nodes.map_values(|e: (String, SceneNodeLayout)| (0int, 0int, e.0@))
}

/// The order in which nodes are visited: positions sorted by node key.
pub open spec fn node_order(nodes: Seq<(String, SceneNodeLayout)>) -> Seq<int> {
    sorted_positions(node_keys(nodes))
}

/// The value of an optional string slice.
pub open spec fn opt_str_view(s: Option<&str>) -> Option<Seq<char>> {
    match s {
        Some(v) => Some(v@),
        None => None,
    }
}

/// The values of material slots.
pub open spec fn slot_views(s: Seq<MaterialSlot>) -> Seq<SlotView> {
    s.map_values(|m: MaterialSlot| m@)
}

/// The material a node asks for: its share key and its slot. The applied
/// material overrides the selected surface; otherwise the `default` binding,
/// or the neutral fallback when there is none.
pub open spec fn material_request(
    node: SceneNodeLayout,
    override_id: Option<Seq<char>>,
    has_override: bool,
) -> (Seq<char>, SlotView) {
    if has_override && override_id == Some(node.id@) {
        ("override:"@ + node.id@, SlotView::Override)
    } else {
        match node.default_material {
            None => ("default:fallback"@, SlotView::Fallback),
            Some(m) => (m@, SlotView::Asset(m@)),
        }
    }
}

/// The position of the first entry of `keys` equal to `key`.
pub open spec fn key_position(keys: Seq<Seq<char>>, key: Seq<char>) -> Option<int>
    decreases keys.len(),
{
    if keys.len() == 0 {
        None
    } else {
        match key_position(keys.drop_last(), key) {
            Some(i) => Some(i),
            None => if keys.last() == key {
                Some(keys.len() - 1)
            } else {
                None
            },
        }
    }
}

/// Material keys built so far, their slots, and the draws so far.
pub type PlanAcc = (Seq<Seq<char>>, Seq<SlotView>, Seq<PlannedDraw>);

/// The material index of a node: a material already built under its key is
/// shared; otherwise a new slot is appended (an asset must exist).
pub open spec fn resolve_material(
    layout: SceneLayout,
    node: SceneNodeLayout,
    override_id: Option<Seq<char>>,
    has_override: bool,
    keys: Seq<Seq<char>>,
    slots: Seq<SlotView>,
) -> Result<(Seq<Seq<char>>, Seq<SlotView>, int), SceneErrorView> {
    let (key, slot) = material_request(node, override_id, has_override);
    match key_position(keys, key) {
        Some(k) => Ok((keys, slots, k)),
        None => match slot {
            SlotView::Asset(id) => if has_material(layout.materials@, id) {
                Ok((keys.push(key), slots.push(slot), keys.len() as int))
            } else {
                Err(SceneErrorView::MissingMaterial { node_id: node.id@, node_name: node.name@, material_id: id })
            },
            _ => Ok((keys.push(key), slots.push(slot), keys.len() as int)),
        },
    }
}

/// The error a mesh's geometry gives, if any.
pub open spec fn mesh_error(shape: MeshShape) -> Option<SceneErrorView> {
    match shape {
        MeshShape::TriangleMesh { position_count, indices } => match triangle_mesh_check(position_count, indices@) {
            Ok(_) => None,
            Err(e) => Some(e),
        },
        _ => None,
    }
}

/// Visits the node at position `p`: hidden nodes and nodes without a mesh
/// are skipped; otherwise its mesh must exist, its material is resolved,
/// its geometry is checked, and a draw is added.
pub open spec fn plan_node(
    layout: SceneLayout,
    override_id: Option<Seq<char>>,
    has_override: bool,
    acc: PlanAcc,
    p: int,
) -> Result<PlanAcc, SceneErrorView> {
    let node = layout.nodes@[p].1;
    if !effectively_visible(layout.nodes@, p) {
        Ok(acc)
    } else {
        match node.mesh_id {
            None => Ok(acc),
            Some(mesh_id) => match mesh_position(layout.meshes@, mesh_id@) {
                None => Err(
                    SceneErrorView::MissingMesh { node_id: node.id@, node_name: node.name@, mesh_id: mesh_id@ },
                ),
                Some(mi) => match resolve_material(layout, node, override_id, has_override, acc.0, acc.1) {
                    Err(e) => Err(e),
                    Ok((keys, slots, k)) => match mesh_error(layout.meshes@[mi].shape) {
                        Some(e) => Err(e),
                        None => Ok(
                            (
                                keys,
                                slots,
                                acc.2.push(
                                    PlannedDraw { node_index: p as usize, mesh_index: mi as usize, material_index: k as u32 },
                                ),
                            ),
                        ),
                    },
                },
            },
        }
    }
}

/// The plan after visiting the first `n` nodes of `order`.
pub open spec fn plan_upto(
    layout: SceneLayout,
    override_id: Option<Seq<char>>,
    has_override: bool,
    order: Seq<int>,
    n: nat,
) -> Result<PlanAcc, SceneErrorView>
    decreases n,
{
    if n == 0 {
        Ok((Seq::empty(), Seq::empty(), Seq::empty()))
    } else {
        match plan_upto(layout, override_id, has_override, order, (n - 1) as nat) {
            Err(e) => Err(e),
            Ok(acc) => plan_node(layout, override_id, has_override, acc, order[n - 1]),
        }
    }
}

/// The plan of a snapshot: material slots and draws, nodes visited in key
/// order; a snapshot with nothing to draw is refused.
pub open spec fn scene_plan(layout: SceneLayout, override_id: Option<Seq<char>>, has_override: bool) -> Result<
    (Seq<SlotView>, Seq<PlannedDraw>),
    SceneErrorView,
> {
    let order = node_order(layout.nodes@);
    match plan_upto(layout, override_id, has_override, order, layout.nodes@.len()) {
        Err(e) => Err(e),
        Ok(acc) => if acc.2.len() == 0 {
            Err(SceneErrorView::NothingVisible { revision: layout.revision })
        } else {
            Ok((acc.1, acc.2))
        },
    }
}

proof fn lemma_plan_error_sticks(
    layout: SceneLayout,
    override_id: Option<Seq<char>>,
    has_override: bool,
    order: Seq<int>,
    i: nat,
    n: nat,
)
    requires
        i <= n,
        plan_upto(layout, override_id, has_override, order, i) is Err,
    ensures
        plan_upto(layout, override_id, has_override, order, n) == plan_upto(layout, override_id, has_override, order, i),
    decreases n - i,
{
    if i < n {
        lemma_plan_error_sticks(layout, override_id, has_override, order, i, (n - 1) as nat);
    }
}

fn find_key(keys: &Vec<String>, key: &String) -> (r: Option<usize>)
    ensures
        match r {
            Some(i) => key_position(strings_view(keys@), key@) == Some(i as int) && i < keys@.len(),
            None => key_position(strings_view(keys@), key@) is None,
        },
{
    let ghost ks = strings_view(keys@);
    let mut i: usize = 0;
    while i < keys.len()
        invariant
            i <= keys@.len(),
            ks == strings_view(keys@),
            forall|j: int| 0 <= j < i ==> ks[j] != key@,
        decreases keys.len() - i,
    {
        if keys[i] == *key {
            proof {
                lemma_key_position_first(ks, key@, i as int);
            }
            return Some(i);
        }
        i = i + 1;
    }
    proof {
        lemma_key_position_absent(ks, key@);
    }
    None
}

proof fn lemma_key_position_absent(keys: Seq<Seq<char>>, key: Seq<char>)
    requires
        forall|j: int| 0 <= j < keys.len() ==> keys[j] != key,
    ensures
        key_position(keys, key) is None,
    decreases keys.len(),
{
    if keys.len() > 0 {
        lemma_key_position_absent(keys.drop_last(), key);
    }
}

proof fn lemma_key_position_first(keys: Seq<Seq<char>>, key: Seq<char>, i: int)
    requires
        0 <= i < keys.len(),
        keys[i] == key,
        forall|j: int| 0 <= j < i ==> keys[j] != key,
    ensures
        key_position(keys, key) == Some(i),
    decreases keys.len(),
{
    if keys.len() - 1 == i {
        lemma_key_position_absent(keys.drop_last(), key);
    } else {
        lemma_key_position_first(keys.drop_last(), key, i);
    }
}

fn request_material(node: &SceneNodeLayout, override_surface_id: Option<&str>, has_override: bool) -> (r: (
    String,
    MaterialSlot,
))
    ensures
        (r.0@, r.1@) == material_request(*node, opt_str_view(override_surface_id), has_override),
{
    let overridden = has_override && match override_surface_id {
        Some(id) => str_equal(id, node.id.as_str()),
        None => false,
    };
    if overridden {
        (concat2("override:", node.id.as_str()), MaterialSlot::Override)
    } else {
        match &node.default_material {
            None => (owned("default:fallback"), MaterialSlot::Fallback),
            Some(m) => (m.clone(), MaterialSlot::Asset(m.clone())),
        }
    }
}

/// The material index of a node, built on demand: `keys` and `slots` hold
/// the share key and slot of each material built so far. A material already
/// built under the node's key is reused; otherwise its slot is appended (an
/// asset must exist in the snapshot, else the error names it and nothing
/// changes).
pub fn material_index_for_node(
    keys: &mut Vec<String>,
    slots: &mut Vec<MaterialSlot>,
    layout: &SceneLayout,
    node: &SceneNodeLayout,
    override_surface_id: Option<&str>,
    has_override_material: bool,
) -> (r: Result<u32, SceneError>)
    requires
        old(keys)@.len() == old(slots)@.len(),
        old(keys)@.len() < u32::MAX,
    ensures
        final(keys)@.len() == final(slots)@.len(),
        old(keys)@.len() <= final(keys)@.len() <= old(keys)@.len() + 1,
        match r {
            Ok(k) => resolve_material(
                *layout,
                *node,
                opt_str_view(override_surface_id),
                has_override_material,
                strings_view(old(keys)@),
                slot_views(old(slots)@),
            ) == Ok::<(Seq<Seq<char>>, Seq<SlotView>, int), SceneErrorView>(
                (strings_view(final(keys)@), slot_views(final(slots)@), k as int),
            ),
            Err(e) => resolve_material(
                *layout,
                *node,
                opt_str_view(override_surface_id),
                has_override_material,
                strings_view(old(keys)@),
                slot_views(old(slots)@),
            ) == Err::<(Seq<Seq<char>>, Seq<SlotView>, int), SceneErrorView>(e@) && final(keys)@ == old(keys)@
                && final(slots)@ == old(slots)@,
        },
{
    let (key, slot) = request_material(node, override_surface_id, has_override_material);
    match find_key(keys, &key) {
        Some(k) => Ok(k as u32),
        None => {
            match &slot {
                MaterialSlot::Asset(id) => {
                    if !material_exists(&layout.materials, id) {
                        return Err(
                            SceneError::MissingMaterial {
                                node_id: node.id.clone(),
                                node_name: node.name.clone(),
                                material_id: id.clone(),
                            },
                        );
                    }
                },
                _ => {},
            }
            let ghost old_keys = keys@;
            let ghost old_slots = slots@;
            keys.push(key);
            slots.push(slot);
            assert(strings_view(keys@) =~= strings_view(old_keys).push(key@));
            assert(slot_views(slots@) =~= slot_views(old_slots).push(slot@));
            Ok((keys.len() - 1) as u32)
        },
    }
}

/// The draws come in node key order: no draw's node key sorts before the
/// key of an earlier draw's node.
pub open spec fn draws_in_key_order(nodes: Seq<(String, SceneNodeLayout)>, draws: Seq<PlannedDraw>) -> bool {
    forall|a: int, b: int|
        0 <= a < b < draws.len() ==> !seq_lt(
            nodes[(#[trigger] draws[b]).node_index as int].0@,
            nodes[(#[trigger] draws[a]).node_index as int].0@,
        )
}

proof fn lemma_steps_in_key_order(
    nodes: Seq<(String, SceneNodeLayout)>,
    order: Seq<int>,
    steps: Seq<int>,
    draws: Seq<PlannedDraw>,
)
    requires
        is_stable_order(node_keys(nodes), order),
        steps.len() == draws.len(),
        forall|t: int| 0 <= t < steps.len() ==> 0 <= #[trigger] steps[t] < order.len(),
        forall|t: int| 0 <= t < steps.len() ==> order[#[trigger] steps[t]] == draws[t].node_index,
        forall|a: int, b: int| 0 <= a < b < steps.len() ==> #[trigger] steps[a] < #[trigger] steps[b],
    ensures
        draws_in_key_order(nodes, draws),
{
    let keys = node_keys(nodes);
    assert forall|a: int, b: int| 0 <= a < b < draws.len() implies !seq_lt(
        nodes[(#[trigger] draws[b]).node_index as int].0@,
        nodes[(#[trigger] draws[a]).node_index as int].0@,
    ) by {
        let sa = steps[a];
        let sb = steps[b];
        assert(sa < sb);
        let pa = order[sa];
        let pb = order[sb];
        assert(placed_before(keys, pa, pb));
        assert(0 <= pa < keys.len() && 0 <= pb < keys.len());
        assert(keys[pa] == (0int, 0int, nodes[pa].0@));
        assert(keys[pb] == (0int, 0int, nodes[pb].0@));
        if seq_lt(nodes[pb].0@, nodes[pa].0@) {
            if seq_lt(nodes[pa].0@, nodes[pb].0@) {
                lemma_seq_lt_transitive(nodes[pa].0@, nodes[pb].0@, nodes[pa].0@);
            }
            lemma_seq_lt_irreflexive(nodes[pa].0@);
        }
    }
}

/// Plans the preview scene of a snapshot: visits nodes in key order, skips
/// hidden ones and ones without a mesh, resolves meshes and materials
/// (sharing each material by key), checks triangle meshes, and refuses a
/// snapshot with nothing to draw. `override_surface_id` names the surface
/// that the applied material replaces when `has_override_material` holds.
pub fn plan_scene(layout: &SceneLayout, override_surface_id: Option<&str>, has_override_material: bool) -> (r: Result<
    ScenePlan,
    SceneError,
>)
    requires
        layout.nodes@.len() < u32::MAX,
    ensures
        match r {
            Ok(plan) => scene_plan(*layout, opt_str_view(override_surface_id), has_override_material) == Ok::<
                (Seq<SlotView>, Seq<PlannedDraw>),
                SceneErrorView,
            >((slot_views(plan.materials@), plan.draws@)),
            Err(e) => scene_plan(*layout, opt_str_view(override_surface_id), has_override_material) == Err::<
                (Seq<SlotView>, Seq<PlannedDraw>),
                SceneErrorView,
            >(e@),
        },
        r matches Ok(plan) ==> draws_in_key_order(layout.nodes@, plan.draws@),
{
    let ghost ov = opt_str_view(override_surface_id);
    let n = layout.nodes.len();
    let mut positions: Vec<usize> = Vec::new();
    let mut sort_keys: Vec<SortKey> = Vec::new();
    let mut j: usize = 0;
    while j < n
        invariant
            n == layout.nodes@.len(),
            j <= n,
            positions@.len() == j,
            sort_keys@.len() == j,
            forall|q: int| 0 <= q < j ==> #[trigger] positions@[q] == q,
            forall|q: int| 0 <= q < j ==> (#[trigger] sort_keys@[q])@ == (0int, 0int, layout.nodes@[q].0@),
        decreases n - j,
    {
        positions.push(j);
        let text = chars_of(layout.nodes[j].0.as_str());
        sort_keys.push(SortKey { major: 0, minor: 0, text });
        j = j + 1;
    }
    assert forall|q: int| 0 <= q < n implies #[trigger] key_views(sort_keys@)[q] == node_keys(layout.nodes@)[q] by {
        assert(sort_keys@[q]@ == (0int, 0int, layout.nodes@[q].0@));
    }
    assert(key_views(sort_keys@) =~= node_keys(layout.nodes@));
    let (sorted, Ghost(perm)) = stable_sort_by_keys(positions, &sort_keys);
    let ghost order = node_order(layout.nodes@);
    assert(perm == order);
    assert(order.len() == n);
    assert(is_stable_order(node_keys(layout.nodes@), order));
    let ghost mut steps: Seq<int> = Seq::empty();
    let mut keys: Vec<String> = Vec::new();
    let mut slots: Vec<MaterialSlot> = Vec::new();
    let mut draws: Vec<PlannedDraw> = Vec::new();
    let mut i: usize = 0;
    assert(strings_view(keys@) =~= Seq::<Seq<char>>::empty());
    assert(slot_views(slots@) =~= Seq::<SlotView>::empty());
    while i < n
        invariant
            n == layout.nodes@.len(),
            n < u32::MAX,
            order == node_order(layout.nodes@),
            order.len() == n,
            sorted@.len() == n,
            forall|q: int| 0 <= q < n ==> 0 <= #[trigger] order[q] < n,
            forall|q: int| 0 <= q < n ==> #[trigger] sorted@[q] == order[q],
            ov == opt_str_view(override_surface_id),
            i <= n,
            keys@.len() == slots@.len(),
            keys@.len() <= i,
            plan_upto(*layout, ov, has_override_material, order, i as nat) == Ok::<PlanAcc, SceneErrorView>(
                (strings_view(keys@), slot_views(slots@), draws@),
            ),
            is_stable_order(node_keys(layout.nodes@), order),
            steps.len() == draws@.len(),
            forall|t: int| 0 <= t < steps.len() ==> 0 <= #[trigger] steps[t] < i,
            forall|t: int| 0 <= t < steps.len() ==> order[#[trigger] steps[t]] == draws@[t].node_index,
            forall|a: int, b: int| 0 <= a < b < steps.len() ==> #[trigger] steps[a] < #[trigger] steps[b],
        decreases n - i,
    {
        let p = sorted[i];
        let ghost acc: PlanAcc = (strings_view(keys@), slot_views(slots@), draws@);
        assert(plan_upto(*layout, ov, has_override_material, order, (i + 1) as nat) == plan_node(
            *layout,
            ov,
            has_override_material,
            acc,
            p as int,
        ));
        let node = &layout.nodes[p].1;
        if is_snapshot_node_effectively_visible(&layout.nodes, p) {
            match &node.mesh_id {
                None => {},
                Some(mesh_id) => {
                    match find_mesh(&layout.meshes, mesh_id) {
                        None => {
                            let e = SceneError::MissingMesh {
                                node_id: node.id.clone(),
                                node_name: node.name.clone(),
                                mesh_id: mesh_id.clone(),
                            };
                            proof {
                                lemma_plan_error_sticks(*layout, ov, has_override_material, order, (i + 1) as nat, n as nat);
                            }
                            return Err(e);
                        },
                        Some(mi) => {
                            let k = match material_index_for_node(
                                &mut keys,
                                &mut slots,
                                layout,
                                node,
                                override_surface_id,
                                has_override_material,
                            ) {
                                Ok(k) => k,
                                Err(e) => {
                                    proof {
                                        lemma_plan_error_sticks(
                                            *layout,
                                            ov,
                                            has_override_material,
                                            order,
                                            (i + 1) as nat,
                                            n as nat,
                                        );
                                    }
                                    return Err(e);
                                },
                            };
                            match &layout.meshes[mi].shape {
                                MeshShape::TriangleMesh { position_count, indices } => {
                                    match validate_triangle_mesh(*position_count, indices) {
                                        Ok(_) => {},
                                        Err(e) => {
                                            proof {
                                                lemma_plan_error_sticks(
                                                    *layout,
                                                    ov,
                                                    has_override_material,
                                                    order,
                                                    (i + 1) as nat,
                                                    n as nat,
                                                );
                                            }
                                            return Err(e);
                                        },
                                    }
                                },
                                _ => {},
                            }
                            draws.push(PlannedDraw { node_index: p, mesh_index: mi, material_index: k });
                            proof {
                                steps = steps.push(i as int);
                            }
                        },
                    }
                },
            }
        }
        i = i + 1;
    }
    if draws.len() == 0 {
        return Err(SceneError::NothingVisible { revision: layout.revision });
    }
    proof {
        lemma_steps_in_key_order(layout.nodes@, order, steps, draws@);
    }
    Ok(ScenePlan { materials: slots, draws })
}

// ---------------------------------------------------------------------------
// The default scene.
// ---------------------------------------------------------------------------

/// `e` is a root node stored under its own id, visible, with the given
/// name, mesh and `default` material.
pub open spec fn is_plain_node(
    e: (String, SceneNodeLayout),
    id: Seq<char>,
    name: Seq<char>,
    mesh: Seq<char>,
    material: Seq<char>,
) -> bool {
    &&& e.0@ == id
    &&& e.1.id@ == id
    &&& e.1.name@ == name
    &&& e.1.parent_id is None
    &&& opt_view(e.1.mesh_id) == Some(mesh)
    &&& opt_view(e.1.default_material) == Some(material)
    &&& e.1.visible
}

/// `m` is a mesh with the given id and shape (`false` for a plane, `true`
/// for a box).
pub open spec fn is_primitive_mesh(m: MeshLayout, id: Seq<char>, is_box: bool) -> bool {
    &&& m.id@ == id
    &&& if is_box {
        m.shape is Box
    } else {
        m.shape is Plane
    }
}

fn plain_node(id: &str, name: &str, mesh: &str, material: &str) -> (r: (String, SceneNodeLayout))
    ensures
        is_plain_node(r, id@, name@, mesh@, material@),
{
    (
        owned(id),
        SceneNodeLayout {
            id: owned(id),
            name: owned(name),
            parent_id: None,
            mesh_id: Some(owned(mesh)),
            default_material: Some(owned(material)),
            visible: true,
        },
    )
}

fn primitive_mesh(id: &str, is_box: bool) -> (r: MeshLayout)
    ensures
        is_primitive_mesh(r, id@, is_box),
{
    MeshLayout { id: owned(id), shape: if is_box { MeshShape::Box } else { MeshShape::Plane } }
}

/// The structure of the built-in Cornell box scene: eight visible root
/// nodes, six planes and two boxes, eight materials, revision 1.
pub fn default_cornell_scene_layout() -> (r: SceneLayout)
    ensures
        r.revision == 1,
        r.nodes@.len() == 8,
        is_plain_node(r.nodes@[0], "sample-block"@, "Sample Block"@, "shortBlock"@, "sampleBlockMat"@),
        is_plain_node(r.nodes@[1], "tall-block"@, "Tall Block"@, "tallBlock"@, "tallBlockMat"@),
        is_plain_node(r.nodes@[2], "left-wall"@, "Left Wall"@, "cornellLeftWall"@, "leftWallMat"@),
        is_plain_node(r.nodes@[3], "right-wall"@, "Right Wall"@, "cornellRightWall"@, "rightWallMat"@),
        is_plain_node(r.nodes@[4], "back-wall"@, "Back Wall"@, "cornellBackWall"@, "backWallMat"@),
        is_plain_node(r.nodes@[5], "floor"@, "Floor"@, "cornellFloor"@, "floorMat"@),
        is_plain_node(r.nodes@[6], "ceiling"@, "Ceiling"@, "cornellCeiling"@, "ceilingMat"@),
        is_plain_node(r.nodes@[7], "area-light"@, "Area Light"@, "light"@, "lightMat"@),
        r.meshes@.len() == 8,
        is_primitive_mesh(r.meshes@[0], "cornellFloor"@, false),
        is_primitive_mesh(r.meshes@[1], "cornellCeiling"@, false),
        is_primitive_mesh(r.meshes@[2], "cornellBackWall"@, false),
        is_primitive_mesh(r.meshes@[3], "cornellLeftWall"@, false),
        is_primitive_mesh(r.meshes@[4], "cornellRightWall"@, false),
        is_primitive_mesh(r.meshes@[5], "light"@, false),
        is_primitive_mesh(r.meshes@[6], "shortBlock"@, true),
        is_primitive_mesh(r.meshes@[7], "tallBlock"@, true),
        strings_view(r.materials@) == seq![
            "floorMat"@,
            "ceilingMat"@,
            "backWallMat"@,
            "leftWallMat"@,
            "rightWallMat"@,
            "sampleBlockMat"@,
            "tallBlockMat"@,
            "lightMat"@,
        ],
{
    let mut nodes: Vec<(String, SceneNodeLayout)> = Vec::new();
    nodes.push(plain_node("sample-block", "Sample Block", "shortBlock", "sampleBlockMat"));
    nodes.push(plain_node("tall-block", "Tall Block", "tallBlock", "tallBlockMat"));
    nodes.push(plain_node("left-wall", "Left Wall", "cornellLeftWall", "leftWallMat"));
    nodes.push(plain_node("right-wall", "Right Wall", "cornellRightWall", "rightWallMat"));
    nodes.push(plain_node("back-wall", "Back Wall", "cornellBackWall", "backWallMat"));
    nodes.push(plain_node("floor", "Floor", "cornellFloor", "floorMat"));
    nodes.push(plain_node("ceiling", "Ceiling", "cornellCeiling", "ceilingMat"));
    nodes.push(plain_node("area-light", "Area Light", "light", "lightMat"));
    let mut meshes: Vec<MeshLayout> = Vec::new();
    meshes.push(primitive_mesh("cornellFloor", false));
    meshes.push(primitive_mesh("cornellCeiling", false));
    meshes.push(primitive_mesh("cornellBackWall", false));
    meshes.push(primitive_mesh("cornellLeftWall", false));
    meshes.push(primitive_mesh("cornellRightWall", false));
    meshes.push(primitive_mesh("light", false));
    meshes.push(primitive_mesh("shortBlock", true));
    meshes.push(primitive_mesh("tallBlock", true));
    let mut materials: Vec<String> = Vec::new();
    materials.push(owned("floorMat"));
    materials.push(owned("ceilingMat"));
    materials.push(owned("backWallMat"));
    materials.push(owned("leftWallMat"));
    materials.push(owned("rightWallMat"));
    materials.push(owned("sampleBlockMat"));
    materials.push(owned("tallBlockMat"));
    materials.push(owned("lightMat"));
    assert(strings_view(materials@) =~= seq![
        "floorMat"@,
        "ceilingMat"@,
        "backWallMat"@,
        "leftWallMat"@,
        "rightWallMat"@,
        "sampleBlockMat"@,
        "tallBlockMat"@,
        "lightMat"@,
    ]);
    SceneLayout { revision: 1, nodes, meshes, materials }
}

// ---------------------------------------------------------------------------
// Laws of the plan.
// ---------------------------------------------------------------------------

/// A node whose parent is in the snapshot and hidden is not drawn, whatever
/// its own flag says.
pub proof fn lemma_hidden_parent_hides(nodes: Seq<(String, SceneNodeLayout)>, p: int, q: int)
    requires
        0 <= p < nodes.len(),
        nodes[p].1.parent_id matches Some(parent) && node_position(nodes, parent@) == Some(q),
        !nodes[q].1.visible,
    ensures
        !effectively_visible(nodes, p),
{
    let node = nodes[p].1;
    if node.visible {
        let parent = node.parent_id->0;
        let visited = Seq::<Seq<char>>::empty().push(node.id@);
        lemma_node_position_range(nodes, parent@);
        assert(!visible_walk(nodes, q, visited, nodes.len() as nat));
    }
}

/// A draw names a drawn node: in range and effectively visible, drawn with
/// the mesh its `mesh_id` names, and a material slot below `slot_count`.
pub open spec fn draw_is_valid(layout: SceneLayout, d: PlannedDraw, slot_count: nat) -> bool {
    &&& d.node_index < layout.nodes@.len()
    &&& effectively_visible(layout.nodes@, d.node_index as int)
    &&& layout.nodes@[d.node_index as int].1.mesh_id matches Some(m) && mesh_position(layout.meshes@, m@) == Some(
        d.mesh_index as int,
    )
    &&& d.material_index < slot_count
}

proof fn lemma_key_position_range(keys: Seq<Seq<char>>, key: Seq<char>)
    ensures
        key_position(keys, key) matches Some(i) ==> 0 <= i < keys.len() && keys[i] == key,
    decreases keys.len(),
{
    if keys.len() > 0 {
        lemma_key_position_range(keys.drop_last(), key);
    }
}

proof fn lemma_mesh_position_range(meshes: Seq<MeshLayout>, id: Seq<char>)
    ensures
        mesh_position(meshes, id) matches Some(i) ==> 0 <= i < meshes.len() && meshes[i].id@ == id,
    decreases meshes.len(),
{
    if meshes.len() > 0 {
        lemma_mesh_position_range(meshes.drop_last(), id);
        if let Some(i) = mesh_position(meshes.drop_last(), id) {
            assert(meshes[i] == meshes.drop_last()[i]);
        }
    }
}

proof fn lemma_plan_upto_valid(
    layout: SceneLayout,
    override_id: Option<Seq<char>>,
    has_override: bool,
    order: Seq<int>,
    n: nat,
)
    requires
        n < u32::MAX,
    ensures
        plan_upto(layout, override_id, has_override, order, n) matches Ok(acc) ==> {
            &&& acc.0.len() == acc.1.len()
            &&& acc.1.len() <= n
            &&& forall|i: int| 0 <= i < acc.2.len() ==> draw_is_valid(layout, #[trigger] acc.2[i], acc.1.len())
        },
    decreases n,
{
    if n > 0 {
        assert(layout.nodes.len() == layout.nodes@.len());
        assert(layout.meshes.len() == layout.meshes@.len());
        lemma_plan_upto_valid(layout, override_id, has_override, order, (n - 1) as nat);
        if let Ok(acc) = plan_upto(layout, override_id, has_override, order, (n - 1) as nat) {
            let p = order[n - 1];
            let node = layout.nodes@[p].1;
            if effectively_visible(layout.nodes@, p) {
                if let Some(mesh_id) = node.mesh_id {
                    lemma_mesh_position_range(layout.meshes@, mesh_id@);
                    if let Some(mi) = mesh_position(layout.meshes@, mesh_id@) {
                        let (key, slot) = material_request(node, override_id, has_override);
                        lemma_key_position_range(acc.0, key);
                        if let Ok((keys, slots, k)) = resolve_material(
                            layout,
                            node,
                            override_id,
                            has_override,
                            acc.0,
                            acc.1,
                        ) {
                            if mesh_error(layout.meshes@[mi].shape) is None {
                                let d = PlannedDraw {
                                    node_index: p as usize,
                                    mesh_index: mi as usize,
                                    material_index: k as u32,
                                };
                                let next = plan_upto(layout, override_id, has_override, order, n);
                                assert(next == Ok::<PlanAcc, SceneErrorView>((keys, slots, acc.2.push(d))));
                                assert(0 <= p < layout.nodes@.len());
                                assert(draw_is_valid(layout, d, slots.len()));
                                assert forall|i: int| 0 <= i < acc.2.push(d).len() implies draw_is_valid(
                                    layout,
                                    #[trigger] acc.2.push(d)[i],
                                    slots.len(),
                                ) by {
                                    if i < acc.2.len() {
                                        assert(acc.2.push(d)[i] == acc.2[i]);
                                    }
                                }
                            }
                        }
                    }
                }
            }
        }
    }
}

/// Every draw of a plan names an effectively visible node, the mesh that the
/// node names, and one of the plan's material slots.
pub proof fn lemma_plan_draws_are_valid(layout: SceneLayout, override_id: Option<Seq<char>>, has_override: bool)
    requires
        layout.nodes@.len() < u32::MAX,
    ensures
        scene_plan(layout, override_id, has_override) matches Ok((slots, draws)) ==> forall|i: int|
            0 <= i < draws.len() ==> draw_is_valid(layout, #[trigger] draws[i], slots.len()),
{
    lemma_plan_upto_valid(layout, override_id, has_override, node_order(layout.nodes@), layout.nodes@.len());
}

/// No node binds a material whose id is the override key of surface `id`.
pub open spec fn override_key_unbound(nodes: Seq<(String, SceneNodeLayout)>, id: Seq<char>) -> bool {
    forall|q: int| 0 <= q < nodes.len() ==> opt_view((#[trigger] nodes[q]).1.default_material) != Some("override:"@ + id)
}

proof fn lemma_override_key_differs(id: Seq<char>)
    ensures
        "default:fallback"@ != "override:"@ + id,
{
    reveal_strlit("default:fallback");
    reveal_strlit("override:");
    assert(("override:"@ + id)[0] == 'o');
    assert("default:fallback"@[0] == 'd');
}

proof fn lemma_plan_upto_override(layout: SceneLayout, id: Seq<char>, order: Seq<int>, n: nat)
    requires
        n < u32::MAX,
        override_key_unbound(layout.nodes@, id),
    ensures
        plan_upto(layout, Some(id), true, order, n) matches Ok(acc) ==> {
            &&& acc.0.len() == acc.1.len()
            &&& acc.1.len() <= n
            &&& forall|k: int| 0 <= k < acc.0.len() && acc.0[k] == "override:"@ + id ==> acc.1[k] == SlotView::Override
            &&& forall|i: int|
                0 <= i < acc.2.len() && layout.nodes@[(#[trigger] acc.2[i]).node_index as int].1.id@ == id
                    ==> acc.2[i].material_index < acc.1.len() && acc.1[acc.2[i].material_index as int]
                    == SlotView::Override
        },
    decreases n,
{
    if n > 0 {
        assert(layout.nodes.len() == layout.nodes@.len());
        assert(layout.meshes.len() == layout.meshes@.len());
        lemma_plan_upto_override(layout, id, order, (n - 1) as nat);
        if let Ok(acc) = plan_upto(layout, Some(id), true, order, (n - 1) as nat) {
            let p = order[n - 1];
            let node = layout.nodes@[p].1;
            let okey = "override:"@ + id;
            if effectively_visible(layout.nodes@, p) {
                assert(0 <= p < layout.nodes@.len());
                if let Some(mesh_id) = node.mesh_id {
                    lemma_mesh_position_range(layout.meshes@, mesh_id@);
                    if let Some(mi) = mesh_position(layout.meshes@, mesh_id@) {
                        let (key, slot) = material_request(node, Some(id), true);
                        lemma_key_position_range(acc.0, key);
                        lemma_override_key_differs(id);
                        assert(key == okey ==> slot == SlotView::Override) by {
                            if node.id@ != id {
                                match node.default_material {
                                    Some(m) => {
                                        assert(opt_view(layout.nodes@[p].1.default_material) != Some(okey));
                                    },
                                    None => {},
                                }
                            }
                        }
                        if let Ok((keys, slots, k)) = resolve_material(layout, node, Some(id), true, acc.0, acc.1) {
                            assert(forall|j: int| 0 <= j < keys.len() && keys[j] == okey ==> slots[j] == SlotView::Override) by {
                                if key_position(acc.0, key) is None {
                                    assert forall|j: int| 0 <= j < keys.len() && keys[j] == okey implies slots[j]
                                        == SlotView::Override by {
                                        if j < acc.0.len() {
                                            assert(keys[j] == acc.0[j]);
                                            assert(slots[j] == acc.1[j]);
                                        }
                                    }
                                }
                            }
                            assert(node.id@ == id ==> slots[k] == SlotView::Override);
                            if mesh_error(layout.meshes@[mi].shape) is None {
                                let d = PlannedDraw {
                                    node_index: p as usize,
                                    mesh_index: mi as usize,
                                    material_index: k as u32,
                                };
                                let draws = acc.2.push(d);
                                assert(plan_upto(layout, Some(id), true, order, n) == Ok::<PlanAcc, SceneErrorView>(
                                    (keys, slots, draws),
                                ));
                                assert forall|i: int|
                                    0 <= i < draws.len() && layout.nodes@[(#[trigger] draws[i]).node_index as int].1.id@
                                        == id implies draws[i].material_index < slots.len() && slots[draws[i].material_index as int]
                                    == SlotView::Override by {
                                    if i < acc.2.len() {
                                        assert(draws[i] == acc.2[i]);
                                        if key_position(acc.0, key) is None {
                                            assert(slots[acc.2[i].material_index as int] == acc.1[acc.2[i].material_index as int]);
                                        }
                                    }
                                }
                            }
                        }
                    }
                }
            }
        }
    }
}

/// An applied material shows on its surface: with an override for surface
/// `id`, every draw of a node with that id uses the override slot, as long
/// as no node binds a material whose id is `override:` followed by `id`
/// (such a material would share the override's key).
pub proof fn lemma_override_is_drawn(layout: SceneLayout, id: Seq<char>)
    requires
        layout.nodes@.len() < u32::MAX,
        override_key_unbound(layout.nodes@, id),
    ensures
        scene_plan(layout, Some(id), true) matches Ok((slots, draws)) ==> forall|i: int|
            0 <= i < draws.len() && layout.nodes@[(#[trigger] draws[i]).node_index as int].1.id@ == id
                ==> draws[i].material_index < slots.len() && slots[draws[i].material_index as int] == SlotView::Override,
{
    lemma_plan_upto_override(layout, id, node_order(layout.nodes@), layout.nodes@.len());
}

proof fn lemma_key_position_none(keys: Seq<Seq<char>>, key: Seq<char>)
    requires
        key_position(keys, key) is None,
    ensures
        forall|j: int| 0 <= j < keys.len() ==> keys[j] != key,
    decreases keys.len(),
{
    if keys.len() > 0 {
        lemma_key_position_none(keys.drop_last(), key);
        assert forall|j: int| 0 <= j < keys.len() implies keys[j] != key by {
            if j < keys.len() - 1 {
                assert(keys[j] == keys.drop_last()[j]);
            }
        }
    }
}

/// The share key under which a slot is built.
pub open spec fn slot_key(slot: SlotView, override_id: Option<Seq<char>>) -> Seq<char> {
    match slot {
        SlotView::Override => "override:"@ + override_id->0,
        SlotView::Fallback => "default:fallback"@,
        SlotView::Asset(id) => id,
    }
}

proof fn lemma_plan_upto_shared(
    layout: SceneLayout,
    override_id: Option<Seq<char>>,
    has_override: bool,
    order: Seq<int>,
    n: nat,
)
    requires
        n < u32::MAX,
    ensures
        plan_upto(layout, override_id, has_override, order, n) matches Ok(acc) ==> {
            &&& acc.0.len() == acc.1.len()
            &&& acc.1.len() <= n
            &&& forall|a: int, b: int| 0 <= a < b < acc.0.len() ==> #[trigger] acc.0[a] != #[trigger] acc.0[b]
            &&& forall|k: int| 0 <= k < acc.0.len() ==> #[trigger] acc.0[k] == slot_key(acc.1[k], override_id)
            &&& forall|i: int|
                0 <= i < acc.2.len() ==> (#[trigger] acc.2[i]).material_index < acc.0.len() && acc.0[acc.2[i].material_index as int]
                    == material_request(layout.nodes@[acc.2[i].node_index as int].1, override_id, has_override).0
        },
    decreases n,
{
    if n > 0 {
        assert(layout.nodes.len() == layout.nodes@.len());
        assert(layout.meshes.len() == layout.meshes@.len());
        lemma_plan_upto_shared(layout, override_id, has_override, order, (n - 1) as nat);
        if let Ok(acc) = plan_upto(layout, override_id, has_override, order, (n - 1) as nat) {
            let p = order[n - 1];
            let node = layout.nodes@[p].1;
            if effectively_visible(layout.nodes@, p) {
                if let Some(mesh_id) = node.mesh_id {
                    if let Some(mi) = mesh_position(layout.meshes@, mesh_id@) {
                        let (key, slot) = material_request(node, override_id, has_override);
                        assert(key == slot_key(slot, override_id));
                        lemma_key_position_range(acc.0, key);
                        lemma_mesh_position_range(layout.meshes@, mesh_id@);
                        assert(0 <= p < layout.nodes@.len());
                        if let Ok((keys, slots, k)) = resolve_material(
                            layout,
                            node,
                            override_id,
                            has_override,
                            acc.0,
                            acc.1,
                        ) {
                            if mesh_error(layout.meshes@[mi].shape) is None {
                                let d = PlannedDraw {
                                    node_index: p as usize,
                                    mesh_index: mi as usize,
                                    material_index: k as u32,
                                };
                                let draws = acc.2.push(d);
                                assert(keys.len() <= acc.0.len() + 1);
                                assert forall|i: int| 0 <= i < draws.len() implies (#[trigger] draws[i]).material_index
                                    < keys.len() && keys[draws[i].material_index as int] == material_request(
                                    layout.nodes@[draws[i].node_index as int].1,
                                    override_id,
                                    has_override,
                                ).0 by {
                                    if i < acc.2.len() {
                                        assert(draws[i] == acc.2[i]);
                                        if key_position(acc.0, key) is None {
                                            assert(keys[acc.2[i].material_index as int] == acc.0[acc.2[i].material_index as int]);
                                        }
                                    }
                                }
                            }
                        }
                        if key_position(acc.0, key) is None {
                            lemma_key_position_none(acc.0, key);
                            if let Ok((keys, slots, k)) = resolve_material(
                                layout,
                                node,
                                override_id,
                                has_override,
                                acc.0,
                                acc.1,
                            ) {
                                assert(keys == acc.0.push(key));
                                assert(slots == acc.1.push(slot));
                                assert forall|a: int, b: int| 0 <= a < b < keys.len() implies #[trigger] keys[a]
                                    != #[trigger] keys[b] by {
                                    if b == acc.0.len() {
                                        assert(keys[a] == acc.0[a]);
                                    } else {
                                        assert(keys[a] == acc.0[a]);
                                        assert(keys[b] == acc.0[b]);
                                    }
                                }
                                assert forall|k2: int| 0 <= k2 < keys.len() implies #[trigger] keys[k2] == slot_key(
                                    slots[k2],
                                    override_id,
                                ) by {
                                    if k2 < acc.0.len() {
                                        assert(keys[k2] == acc.0[k2]);
                                        assert(slots[k2] == acc.1[k2]);
                                    }
                                }
                            }
                        }
                    }
                }
            }
        }
    }
}

/// Each material is built once: the slots of a plan are pairwise distinct
/// (one per asset id, at most one fallback and at most one override), and
/// draws of nodes that ask for the same material share its slot.
pub proof fn lemma_materials_built_once(layout: SceneLayout, override_id: Option<Seq<char>>, has_override: bool)
    requires
        layout.nodes@.len() < u32::MAX,
    ensures
        scene_plan(layout, override_id, has_override) matches Ok((slots, draws)) ==> {
            &&& forall|a: int, b: int| 0 <= a < b < slots.len() ==> #[trigger] slots[a] != #[trigger] slots[b]
            &&& forall|a: int, b: int|
                0 <= a < draws.len() && 0 <= b < draws.len() && material_request(
                    layout.nodes@[(#[trigger] draws[a]).node_index as int].1,
                    override_id,
                    has_override,
                ).0 == material_request(layout.nodes@[(#[trigger] draws[b]).node_index as int].1, override_id, has_override).0
                    ==> draws[a].material_index == draws[b].material_index
        },
{
    let order = node_order(layout.nodes@);
    lemma_plan_upto_shared(layout, override_id, has_override, order, layout.nodes@.len());
    if let Ok(acc) = plan_upto(layout, override_id, has_override, order, layout.nodes@.len()) {
        let slots = acc.1;
        let draws = acc.2;
        assert forall|a: int, b: int| 0 <= a < b < slots.len() implies #[trigger] slots[a] != #[trigger] slots[b] by {
            assert(acc.0[a] == slot_key(slots[a], override_id));
            assert(acc.0[b] == slot_key(slots[b], override_id));
        }
        assert forall|a: int, b: int|
            0 <= a < draws.len() && 0 <= b < draws.len() && material_request(
                layout.nodes@[(#[trigger] draws[a]).node_index as int].1,
                override_id,
                has_override,
            ).0 == material_request(layout.nodes@[(#[trigger] draws[b]).node_index as int].1, override_id, has_override).0
                implies draws[a].material_index == draws[b].material_index by {
            let ma = draws[a].material_index as int;
            let mb = draws[b].material_index as int;
            if ma < mb {
                assert(acc.0[ma] != acc.0[mb]);
            } else if mb < ma {
                assert(acc.0[mb] != acc.0[ma]);
            }
        }
    }
}

/// Looking up a node's material is idempotent: on success the index names
/// one of the slots, at most one slot was added and the earlier ones are
/// kept, and looking the material up again gives the same index and adds
/// nothing. A lookup fails only for an asset binding that the snapshot lacks,
/// and the error names the node and that material.
pub proof fn lemma_material_lookup_idempotent(
    layout: SceneLayout,
    node: SceneNodeLayout,
    override_id: Option<Seq<char>>,
    has_override: bool,
    keys: Seq<Seq<char>>,
    slots: Seq<SlotView>,
)
    requires
        keys.len() == slots.len(),
    ensures
        resolve_material(layout, node, override_id, has_override, keys, slots) matches Ok((keys2, slots2, k)) ==> {
            &&& 0 <= k < slots2.len()
            &&& keys2.len() == slots2.len()
            &&& slots.len() <= slots2.len() <= slots.len() + 1
            &&& keys2.subrange(0, keys.len() as int) == keys
            &&& slots2.subrange(0, slots.len() as int) == slots
            &&& resolve_material(layout, node, override_id, has_override, keys2, slots2) == Ok::<
                (Seq<Seq<char>>, Seq<SlotView>, int),
                SceneErrorView,
            >((keys2, slots2, k))
        },
        resolve_material(layout, node, override_id, has_override, keys, slots) matches Err(e) ==> {
            &&& node.default_material matches Some(m)
            &&& !has_material(layout.materials@, m@)
            &&& e == SceneErrorView::MissingMaterial { node_id: node.id@, node_name: node.name@, material_id: m@ }
        },
{
    let (key, slot) = material_request(node, override_id, has_override);
    lemma_key_position_range(keys, key);
    match key_position(keys, key) {
        Some(k) => {
            assert(keys.subrange(0, keys.len() as int) =~= keys);
            assert(slots.subrange(0, slots.len() as int) =~= slots);
        },
        None => {
            let keys2 = keys.push(key);
            let slots2 = slots.push(slot);
            assert(keys2.drop_last() =~= keys);
            assert(key_position(keys2, key) == Some(keys.len() as int));
            assert(keys2.subrange(0, keys.len() as int) =~= keys);
            assert(slots2.subrange(0, slots.len() as int) =~= slots);
        },
    }
}

/// The node at `p` is drawn by a plan: it and its ancestors are visible
/// and it has a mesh.
pub open spec fn is_drawable(nodes: Seq<(String, SceneNodeLayout)>, p: int) -> bool {
    effectively_visible(nodes, p) && nodes[p].1.mesh_id is Some
}

proof fn lemma_plan_upto_draws(
    layout: SceneLayout,
    override_id: Option<Seq<char>>,
    has_override: bool,
    order: Seq<int>,
    m: nat,
)
    requires
        is_stable_order(node_keys(layout.nodes@), order),
        m <= order.len(),
    ensures
        plan_upto(layout, override_id, has_override, order, m) matches Ok(acc) ==> {
            &&& forall|i: int|
                0 <= i < acc.2.len() ==> exists|t: int|
                    0 <= t < m && #[trigger] order[t] == (#[trigger] acc.2[i]).node_index as int
            &&& forall|i: int, j: int|
                0 <= i < j < acc.2.len() ==> (#[trigger] acc.2[i]).node_index != (#[trigger] acc.2[j]).node_index
            &&& forall|t: int|
                0 <= t < m && is_drawable(layout.nodes@, #[trigger] order[t]) ==> exists|i: int|
                    0 <= i < acc.2.len() && (#[trigger] acc.2[i]).node_index as int == order[t]
        },
    decreases m,
{
    if m > 0 {
        assert(layout.nodes.len() == layout.nodes@.len());
        lemma_plan_upto_draws(layout, override_id, has_override, order, (m - 1) as nat);
        lemma_stable_order_distinct(node_keys(layout.nodes@), order);
        if let Ok(acc) = plan_upto(layout, override_id, has_override, order, (m - 1) as nat) {
            let last = m - 1;
            let p = order[last];
            let next = plan_upto(layout, override_id, has_override, order, m);
            if let Ok(acc2) = next {
                if acc2.2 == acc.2 {
                    assert(!is_drawable(layout.nodes@, p)) by {
                        if is_drawable(layout.nodes@, p) {
                            let node = layout.nodes@[p].1;
                            let mesh_id = node.mesh_id->0;
                            let mi = mesh_position(layout.meshes@, mesh_id@)->0;
                            assert(acc2.2.len() == acc.2.len() + 1);
                        }
                    }
                    assert forall|t: int|
                        0 <= t < m && is_drawable(layout.nodes@, #[trigger] order[t]) implies exists|i: int|
                        0 <= i < acc2.2.len() && (#[trigger] acc2.2[i]).node_index as int == order[t] by {
                        assert(t < last);
                    }
                    assert forall|i: int| 0 <= i < acc2.2.len() implies exists|t: int|
                        0 <= t < m && #[trigger] order[t] == (#[trigger] acc2.2[i]).node_index as int by {
                        let t = choose|t: int| 0 <= t < last && #[trigger] order[t] == acc.2[i].node_index as int;
                        assert(order[t] == acc2.2[i].node_index as int);
                    }
                } else {
                    assert(effectively_visible(layout.nodes@, p));
                    assert(0 <= p < layout.nodes@.len());
                    let node = layout.nodes@[p].1;
                    let mesh_id = node.mesh_id->0;
                    let mi = mesh_position(layout.meshes@, mesh_id@)->0;
                    let res = resolve_material(layout, node, override_id, has_override, acc.0, acc.1)->Ok_0;
                    let d = PlannedDraw { node_index: p as usize, mesh_index: mi as usize, material_index: res.2 as u32 };
                    assert(acc2.2 == acc.2.push(d));
                    assert(d.node_index as int == p);
                    assert forall|i: int| 0 <= i < acc2.2.len() implies exists|t: int|
                        0 <= t < m && #[trigger] order[t] == (#[trigger] acc2.2[i]).node_index as int by {
                        if i < acc.2.len() {
                            assert(acc2.2[i] == acc.2[i]);
                            let t = choose|t: int| 0 <= t < last && #[trigger] order[t] == acc.2[i].node_index as int;
                            assert(order[t] == acc2.2[i].node_index as int);
                        } else {
                            assert(order[last] == acc2.2[i].node_index as int);
                        }
                    }
                    assert forall|i: int, j: int| 0 <= i < j < acc2.2.len() implies (#[trigger] acc2.2[i]).node_index
                        != (#[trigger] acc2.2[j]).node_index by {
                        assert(acc2.2[i] == acc.2[i]);
                        if j < acc.2.len() {
                            assert(acc2.2[j] == acc.2[j]);
                        } else {
                            let t = choose|t: int| 0 <= t < last && #[trigger] order[t] == acc.2[i].node_index as int;
                            assert(order[t] != order[last]);
                        }
                    }
                    assert forall|t: int|
                        0 <= t < m && is_drawable(layout.nodes@, #[trigger] order[t]) implies exists|i: int|
                        0 <= i < acc2.2.len() && (#[trigger] acc2.2[i]).node_index as int == order[t] by {
                        if t < last {
                            let i = choose|i: int| 0 <= i < acc.2.len() && (#[trigger] acc.2[i]).node_index as int == order[t];
                            assert(acc2.2[i] == acc.2[i]);
                        } else {
                            assert(acc2.2[acc.2.len() as int] == d);
                        }
                    }
                }
            }
        }
    }
}

/// A plan draws each drawable node once and nothing else: every draw names
/// a drawable node and one of the plan's material slots, no node is drawn
/// twice, and every drawable node is drawn.
pub proof fn lemma_one_draw_per_drawable_node(layout: SceneLayout, override_id: Option<Seq<char>>, has_override: bool)
    requires
        layout.nodes@.len() < u32::MAX,
    ensures
        scene_plan(layout, override_id, has_override) matches Ok((slots, draws)) ==> {
            &&& forall|i: int|
                0 <= i < draws.len() ==> is_drawable(layout.nodes@, (#[trigger] draws[i]).node_index as int)
                    && draws[i].material_index < slots.len()
            &&& forall|i: int, j: int|
                0 <= i < j < draws.len() ==> (#[trigger] draws[i]).node_index != (#[trigger] draws[j]).node_index
            &&& forall|p: int|
                0 <= p < layout.nodes@.len() && #[trigger] is_drawable(layout.nodes@, p) ==> exists|i: int|
                    0 <= i < draws.len() && (#[trigger] draws[i]).node_index as int == p
        },
{
    let order = node_order(layout.nodes@);
    lemma_stable_order_exists(node_keys(layout.nodes@));
    lemma_plan_upto_draws(layout, override_id, has_override, order, layout.nodes@.len());
    lemma_plan_upto_valid(layout, override_id, has_override, order, layout.nodes@.len());
    if let Ok((slots, draws)) = scene_plan(layout, override_id, has_override) {
        let acc = plan_upto(layout, override_id, has_override, order, layout.nodes@.len())->Ok_0;
        assert(slots == acc.1 && draws == acc.2);
        assert forall|i: int| 0 <= i < draws.len() implies is_drawable(
            layout.nodes@,
            (#[trigger] draws[i]).node_index as int,
        ) && draws[i].material_index < slots.len() by {
            assert(draw_is_valid(layout, draws[i], slots.len()));
        }
        assert forall|i: int, j: int| 0 <= i < j < draws.len() implies (#[trigger] draws[i]).node_index
            != (#[trigger] draws[j]).node_index by {}
        assert forall|p: int| 0 <= p < layout.nodes@.len() && #[trigger] is_drawable(layout.nodes@, p) implies exists|
            i: int,
        | 0 <= i < draws.len() && (#[trigger] draws[i]).node_index as int == p by {
            assert(lists(order, p));
            let t = choose|t: int| 0 <= t < order.len() && #[trigger] order[t] == p;
            assert(is_drawable(layout.nodes@, order[t]));
        }
    }
}

// ---------------------------------------------------------------------------
// Laws of visibility.
// ---------------------------------------------------------------------------

/// `chain` follows parent ids from its first node: every position is in
/// the snapshot, and each node's parent id is the key of the next node.
pub open spec fn parent_links(nodes: Seq<(String, SceneNodeLayout)>, chain: Seq<int>) -> bool {
    &&& chain.len() > 0
    &&& forall|i: int| 0 <= i < chain.len() ==> 0 <= #[trigger] chain[i] < nodes.len()
    &&& forall|i: int|
        0 <= i < chain.len() - 1 ==> ((#[trigger] nodes[chain[i]]).1.parent_id matches Some(pid) && first_keyed(
            nodes,
            pid@,
            chain[i + 1],
        ))
}

/// Position `q` holds the first node stored under `key`.
pub open spec fn first_keyed(nodes: Seq<(String, SceneNodeLayout)>, key: Seq<char>, q: int) -> bool {
    &&& 0 <= q < nodes.len()
    &&& nodes[q].0@ == key
    &&& forall|k: int| 0 <= k < q ==> (#[trigger] nodes[k]).0@ != key
}

/// No node is stored under `key`.
pub open spec fn unkeyed(nodes: Seq<(String, SceneNodeLayout)>, key: Seq<char>) -> bool {
    forall|k: int| 0 <= k < nodes.len() ==> (#[trigger] nodes[k]).0@ != key
}

proof fn lemma_first_keyed_position(nodes: Seq<(String, SceneNodeLayout)>, key: Seq<char>, q: int)
    requires
        first_keyed(nodes, key, q),
    ensures
        node_position(nodes, key) == Some(q),
{
    lemma_node_position_found(nodes, key, q);
    let p = nodes.subrange(0, q + 1);
    assert(p.drop_last() =~= nodes.subrange(0, q));
    lemma_node_position_extend(nodes, key, q + 1);
}

proof fn lemma_unkeyed_position(nodes: Seq<(String, SceneNodeLayout)>, key: Seq<char>)
    requires
        unkeyed(nodes, key),
    ensures
        node_position(nodes, key) is None,
{
    lemma_node_position_found(nodes, key, nodes.len() as int);
    assert(nodes.subrange(0, nodes.len() as int) =~= nodes);
}

/// The ids of the nodes at the first `i` positions of `chain`.
pub open spec fn chain_ids(nodes: Seq<(String, SceneNodeLayout)>, chain: Seq<int>, i: int) -> Seq<Seq<char>> {
    chain.subrange(0, i).map_values(|q: int| nodes[q].1.id@)
}

proof fn lemma_hidden_on_chain(
    nodes: Seq<(String, SceneNodeLayout)>,
    chain: Seq<int>,
    i: int,
    j: int,
    visited: Seq<Seq<char>>,
    fuel: nat,
)
    requires
        parent_links(nodes, chain),
        0 <= i <= j < chain.len(),
        !nodes[chain[j]].1.visible,
    ensures
        !visible_walk(nodes, chain[i], visited, fuel),
    decreases j - i, fuel,
{
    let p = chain[i];
    if fuel > 0 && i < j && nodes[p].1.visible {
        let pid = nodes[p].1.parent_id->0;
        if !visited.contains(nodes[p].1.id@) {
            lemma_first_keyed_position(nodes, pid@, chain[i + 1]);
            lemma_hidden_on_chain(nodes, chain, i + 1, j, visited.push(nodes[p].1.id@), (fuel - 1) as nat);
        }
    }
}

/// A node with a hidden ancestor is not drawn: if some node on the chain of
/// parents of `chain[0]` is hidden, `chain[0]` is not effectively visible.
pub proof fn lemma_hidden_ancestor_hides(nodes: Seq<(String, SceneNodeLayout)>, chain: Seq<int>, j: int)
    requires
        parent_links(nodes, chain),
        0 <= j < chain.len(),
        !nodes[chain[j]].1.visible,
    ensures
        !effectively_visible(nodes, chain[0]),
{
    lemma_hidden_on_chain(nodes, chain, 0, j, Seq::empty(), (nodes.len() + 1) as nat);
}

proof fn lemma_visible_on_chain(
    nodes: Seq<(String, SceneNodeLayout)>,
    chain: Seq<int>,
    i: int,
    fuel: nat,
)
    requires
        parent_links(nodes, chain),
        0 <= i < chain.len(),
        fuel >= chain.len() - i,
        forall|a: int, b: int| 0 <= a < b < chain.len() ==> nodes[#[trigger] chain[a]].1.id@ != nodes[#[trigger] chain[b]].1.id@,
        forall|k: int| 0 <= k < chain.len() ==> nodes[#[trigger] chain[k]].1.visible,
        match nodes[chain.last()].1.parent_id {
            None => true,
            Some(pid) => unkeyed(nodes, pid@),
        },
    ensures
        visible_walk(nodes, chain[i], chain_ids(nodes, chain, i), fuel),
    decreases chain.len() - i,
{
    let p = chain[i];
    let visited = chain_ids(nodes, chain, i);
    assert(nodes[chain[i]].1.visible);
    if let Some(pid) = nodes[p].1.parent_id {
        assert(!visited.contains(nodes[p].1.id@)) by {
            if visited.contains(nodes[p].1.id@) {
                let a = choose|a: int| 0 <= a < visited.len() && visited[a] == nodes[p].1.id@;
                assert(visited[a] == nodes[chain[a]].1.id@);
            }
        }
        if i < chain.len() - 1 {
            lemma_first_keyed_position(nodes, pid@, chain[i + 1]);
            assert(chain_ids(nodes, chain, i + 1) =~= visited.push(nodes[p].1.id@));
            lemma_visible_on_chain(nodes, chain, i + 1, (fuel - 1) as nat);
        } else {
            assert(chain[i] == chain.last());
            lemma_unkeyed_position(nodes, pid@);
        }
    }
}

/// A node is drawn when it and all its ancestors are visible: if the
/// chain of parents of `chain[0]` has no repeated id, every node on it is
/// visible, and it ends at a node without a parent in the snapshot, then
/// `chain[0]` is effectively visible, however long the chain.
pub proof fn lemma_visible_ancestry_shows(nodes: Seq<(String, SceneNodeLayout)>, chain: Seq<int>)
    requires
        parent_links(nodes, chain),
        forall|a: int, b: int| 0 <= a < b < chain.len() ==> nodes[#[trigger] chain[a]].1.id@ != nodes[#[trigger] chain[b]].1.id@,
        forall|k: int| 0 <= k < chain.len() ==> nodes[#[trigger] chain[k]].1.visible,
        match nodes[chain.last()].1.parent_id {
            None => true,
            Some(pid) => unkeyed(nodes, pid@),
        },
    ensures
        effectively_visible(nodes, chain[0]),
{
    assert(chain.no_duplicates()) by {
        assert forall|a: int, b: int| 0 <= a < chain.len() && 0 <= b < chain.len() && a != b implies chain[a]
            != chain[b] by {
            if a < b {
                assert(nodes[chain[a]].1.id@ != nodes[chain[b]].1.id@);
            } else {
                assert(nodes[chain[b]].1.id@ != nodes[chain[a]].1.id@);
            }
        }
    }
    chain.unique_seq_to_set();
    vstd::set_lib::lemma_int_range(0, nodes.len() as int);
    assert(chain.to_set().subset_of(vstd::set_lib::set_int_range(0, nodes.len() as int)));
    vstd::set_lib::lemma_len_subset(chain.to_set(), vstd::set_lib::set_int_range(0, nodes.len() as int));
    assert(chain_ids(nodes, chain, 0) =~= Seq::<Seq<char>>::empty());
    lemma_visible_on_chain(nodes, chain, 0, (nodes.len() + 1) as nat);
}

proof fn lemma_cycle_on_chain(nodes: Seq<(String, SceneNodeLayout)>, chain: Seq<int>, a: int, i: int, fuel: nat)
    requires
        parent_links(nodes, chain),
        0 <= a < chain.len() - 1,
        0 <= i < chain.len(),
        nodes[chain.last()].1.id@ == nodes[chain[a]].1.id@,
        nodes[chain.last()].1.parent_id is Some,
    ensures
        !visible_walk(nodes, chain[i], chain_ids(nodes, chain, i), fuel),
    decreases chain.len() - i,
{
    let p = chain[i];
    let visited = chain_ids(nodes, chain, i);
    if fuel > 0 && nodes[p].1.visible {
        if i == chain.len() - 1 {
            assert(visited[a] == nodes[chain[a]].1.id@);
            assert(visited.contains(nodes[p].1.id@));
        } else {
            let pid = nodes[p].1.parent_id->0;
            if !visited.contains(nodes[p].1.id@) {
                lemma_first_keyed_position(nodes, pid@, chain[i + 1]);
                assert(chain_ids(nodes, chain, i + 1) =~= visited.push(nodes[p].1.id@));
                lemma_cycle_on_chain(nodes, chain, a, i + 1, (fuel - 1) as nat);
            }
        }
    }
}

/// A cycle of parents hides: if following parent ids from `chain[0]` comes
/// back to a node id already passed, and that node has a parent, then
/// `chain[0]` is not effectively visible.
pub proof fn lemma_parent_cycle_hides(nodes: Seq<(String, SceneNodeLayout)>, chain: Seq<int>, a: int)
    requires
        parent_links(nodes, chain),
        0 <= a < chain.len() - 1,
        nodes[chain.last()].1.id@ == nodes[chain[a]].1.id@,
        nodes[chain.last()].1.parent_id is Some,
    ensures
        !effectively_visible(nodes, chain[0]),
{
    assert(chain_ids(nodes, chain, 0) =~= Seq::<Seq<char>>::empty());
    lemma_cycle_on_chain(nodes, chain, a, 0, (nodes.len() + 1) as nat);
}

} // verus!
