//! The renderer session: the selected scene surface and the materials
//! applied to surfaces, plus the traits of a material that drive its preview.

use vstd::prelude::*;
use crate::materials::{
    copy_opt_string, duplicate_files, duplicate_strings, files_view, opt_view, strings_view,
    MaterialFile, MaterialFileView,
};
use crate::order::{arrange, is_stable_order, key_views, stable_sort_by_keys, stably_sorted, KeyView, SortKey};
use crate::text::{chars_contain, chars_of, text_lower, owned, seq_contains, str_equal, to_lowercase};

verus! {

/// The scene surface that materials are applied to.
pub struct SurfaceSelection {
    pub id: String,
    pub label: String,
}

impl SurfaceSelection {
    /// A copy of this selection.
    pub fn duplicate(&self) -> (r: SurfaceSelection)
        ensures
            r.id@ == self.id@,
            r.label@ == self.label@,
    {
        SurfaceSelection { id: self.id.clone(), label: self.label.clone() }
    }
}

impl Default for SurfaceSelection {
    /// The sample block of the preview scene.
    fn default() -> (r: SurfaceSelection)
        ensures
            r.id@ == "sample-block"@,
            r.label@ == "Sample Block"@,
    {
        SurfaceSelection { id: owned("sample-block"), label: owned("Sample Block") }
    }
}

/// A Poly Haven material chosen by the user for the selected surface.
pub struct MaterialApplication {
    pub id: String,
    pub name: String,
    pub thumbnail_url: Option<String>,
    pub categories: Vec<String>,
    pub authors: Vec<String>,
    pub maps: Vec<MaterialFile>,
}

/// A material applied to a surface.
pub struct AppliedMaterial {
    pub surface_id: String,
    pub surface_label: String,
    pub material_id: String,
    pub material_name: String,
    pub thumbnail_url: Option<String>,
    pub categories: Vec<String>,
    pub authors: Vec<String>,
    pub maps: Vec<MaterialFile>,
}

/// The mathematical value of an [`AppliedMaterial`].
pub struct AppliedMaterialView {
    pub surface_id: Seq<char>,
    pub surface_label: Seq<char>,
    pub material_id: Seq<char>,
    pub material_name: Seq<char>,
    pub thumbnail_url: Option<Seq<char>>,
    pub categories: Seq<Seq<char>>,
    pub authors: Seq<Seq<char>>,
    pub maps: Seq<MaterialFileView>,
}

impl View for AppliedMaterial {
    type V = AppliedMaterialView;

    open spec fn view(&self) -> AppliedMaterialView {
        AppliedMaterialView {
            surface_id: self.surface_id@,
            surface_label: self.surface_label@,
            material_id: self.material_id@,
            material_name: self.material_name@,
            thumbnail_url: opt_view(self.thumbnail_url),
            categories: strings_view(self.categories@),
            authors: strings_view(self.authors@),
            maps: files_view(self.maps@),
        }
    }
}

/// The values of a sequence of applied materials.
pub open spec fn applied_view(v: Seq<AppliedMaterial>) -> Seq<AppliedMaterialView> {
    v.map_values(|m: AppliedMaterial| m@)
}

/// The record of applying `material` to the surface `surface`.
pub open spec fn application_record(surface_id: Seq<char>, surface_label: Seq<char>, material: MaterialApplication) -> AppliedMaterialView {
    AppliedMaterialView {
        surface_id: surface_id,
        surface_label: surface_label,
        material_id: material.id@,
        material_name: material.name@,
        thumbnail_url: opt_view(material.thumbnail_url),
        categories: strings_view(material.categories@),
        authors: strings_view(material.authors@),
        maps: files_view(material.maps@),
    }
}

impl AppliedMaterial {
    /// A copy of this record.
    pub fn duplicate(&self) -> (r: AppliedMaterial)
        ensures
            r@ == self@,
    {
        AppliedMaterial {
            surface_id: self.surface_id.clone(),
            surface_label: self.surface_label.clone(),
            material_id: self.material_id.clone(),
            material_name: self.material_name.clone(),
            thumbnail_url: copy_opt_string(&self.thumbnail_url),
            categories: duplicate_strings(&self.categories),
            authors: duplicate_strings(&self.authors),
            maps: duplicate_files(&self.maps),
        }
    }
}

/// What a preview render needs to know of an applied material.
pub struct PreviewMaterial {
    pub name: String,
    pub categories: Vec<String>,
    pub maps: Vec<MaterialFile>,
}

/// The mathematical value of a [`PreviewMaterial`].
pub struct PreviewMaterialView {
    pub name: Seq<char>,
    pub categories: Seq<Seq<char>>,
    pub maps: Seq<MaterialFileView>,
}

impl View for PreviewMaterial {
    type V = PreviewMaterialView;

    open spec fn view(&self) -> PreviewMaterialView {
        PreviewMaterialView { name: self.name@, categories: strings_view(self.categories@), maps: files_view(self.maps@) }
    }
}

/// The preview material of an applied material.
pub open spec fn preview_of(m: AppliedMaterialView) -> PreviewMaterialView {
    PreviewMaterialView { name: m.material_name, categories: m.categories, maps: m.maps }
}

impl PreviewMaterial {
    /// The preview material of an applied material: its name, categories
    /// and maps.
    pub fn from(material: &AppliedMaterial) -> (r: PreviewMaterial)
        ensures
            r@ == preview_of(material@),
    {
        PreviewMaterial {
            name: material.material_name.clone(),
            categories: duplicate_strings(&material.categories),
            maps: duplicate_files(&material.maps),
        }
    }
}

// ---------------------------------------------------------------------------
// The session.
// ---------------------------------------------------------------------------

/// The applied materials as a map from surface id.
pub open spec fn applied_map(v: Seq<AppliedMaterialView>) -> Map<Seq<char>, AppliedMaterialView>
    decreases v.len(),
{
    if v.len() == 0 {
        Map::empty()
    } else {
        applied_map(v.drop_last()).insert(v.last().surface_id, v.last())
    }
}

/// The record list after recording `x`: it replaces the record of the same
/// surface in place, or is appended when that surface had none.
pub open spec fn recorded(v: Seq<AppliedMaterialView>, x: AppliedMaterialView) -> Seq<AppliedMaterialView> {
    if exists|i: int| 0 <= i < v.len() && (#[trigger] v[i]).surface_id == x.surface_id {
        v.update(choose|i: int| 0 <= i < v.len() && (#[trigger] v[i]).surface_id == x.surface_id, x)
    } else {
        v.push(x)
    }
}

/// No two records are for the same surface.
pub open spec fn distinct_surfaces(v: Seq<AppliedMaterialView>) -> bool {
    forall|i: int, j: int| 0 <= i < j < v.len() ==> (#[trigger] v[i]).surface_id != (#[trigger] v[j]).surface_id
}

/// The selected surface and the materials applied to surfaces (at most one
/// per surface, in the order the surfaces first received one).
pub struct RendererSession {
    selected: SurfaceSelection,
    applied: Vec<AppliedMaterial>,
}

proof fn lemma_applied_map_update(v: Seq<AppliedMaterialView>, i: int, x: AppliedMaterialView)
    requires
        distinct_surfaces(v),
        0 <= i < v.len(),
        x.surface_id == v[i].surface_id,
    ensures
        applied_map(v.update(i, x)) == applied_map(v).insert(x.surface_id, x),
        distinct_surfaces(v.update(i, x)),
    decreases v.len(),
{
    let u = v.update(i, x);
    if i == v.len() - 1 {
        assert(u.drop_last() =~= v.drop_last());
        assert(applied_map(u) =~= applied_map(v).insert(x.surface_id, x));
    } else {
        let w = v.drop_last();
        assert(u.drop_last() =~= w.update(i, x));
        lemma_applied_map_update(w, i, x);
        assert(v.last().surface_id != x.surface_id);
        assert(applied_map(u) =~= applied_map(v).insert(x.surface_id, x));
    }
}

proof fn lemma_applied_map_lookup(v: Seq<AppliedMaterialView>, i: int)
    requires
        distinct_surfaces(v),
        0 <= i < v.len(),
    ensures
        applied_map(v).contains_key(v[i].surface_id),
        applied_map(v)[v[i].surface_id] == v[i],
    decreases v.len(),
{
    if i < v.len() - 1 {
        lemma_applied_map_lookup(v.drop_last(), i);
    }
}

proof fn lemma_applied_map_missing(v: Seq<AppliedMaterialView>, id: Seq<char>)
    requires
        forall|j: int| 0 <= j < v.len() ==> (#[trigger] v[j]).surface_id != id,
    ensures
        !applied_map(v).contains_key(id),
    decreases v.len(),
{
    if v.len() > 0 {
        lemma_applied_map_missing(v.drop_last(), id);
    }
}

impl RendererSession {
    #[verifier::type_invariant]
    spec fn surfaces_distinct(self) -> bool {
        distinct_surfaces(applied_view(self.applied@))
    }

    /// The selected surface (id, label).
    pub closed spec fn selection(self) -> (Seq<char>, Seq<char>) {
        (self.selected.id@, self.selected.label@)
    }

    /// The applied materials, keyed by surface id.
    pub closed spec fn applied(self) -> Map<Seq<char>, AppliedMaterialView> {
        applied_map(applied_view(self.applied@))
    }

    /// The applied materials in the order their surfaces first got one.
    pub closed spec fn applied_in_order(self) -> Seq<AppliedMaterialView> {
        applied_view(self.applied@)
    }

    /// The map of applied materials is built from the ordered list.
    pub proof fn lemma_applied_is_map_of_order(self)
        ensures
            self.applied() == applied_map(self.applied_in_order()),
    {
    }

    /// A session with the sample block selected and nothing applied.
    pub fn new() -> (r: RendererSession)
        ensures
            r.selection() == ("sample-block"@, "Sample Block"@),
            r.applied() == Map::<Seq<char>, AppliedMaterialView>::empty(),
            r.applied_in_order().len() == 0,
    {
        let applied: Vec<AppliedMaterial> = Vec::new();
        assert(applied_view(applied@) =~= Seq::<AppliedMaterialView>::empty());
        RendererSession { selected: SurfaceSelection::default(), applied }
    }

    /// Selects a surface; applied materials are unchanged.
    pub fn select_scene_surface(&mut self, surface_id: String, surface_label: String)
        ensures
            final(self).selection() == (surface_id@, surface_label@),
            final(self).applied() == old(self).applied(),
            final(self).applied_in_order() == old(self).applied_in_order(),
    {
        proof {
            use_type_invariant(&*self);
        }
        self.selected = SurfaceSelection { id: surface_id, label: surface_label };
    }

    /// A copy of the selected surface.
    pub fn selected_surface(&self) -> (r: SurfaceSelection)
        ensures
            (r.id@, r.label@) == self.selection(),
    {
        self.selected.duplicate()
    }

    fn find_surface(&self, surface_id: &String) -> (r: Option<usize>)
        ensures
            match r {
                Some(i) => i < self.applied@.len() && self.applied@[i as int].surface_id@ == surface_id@,
                None => forall|j: int| 0 <= j < self.applied@.len() ==> (#[trigger] self.applied@[j]).surface_id@ != surface_id@,
            },
    {
        let mut i: usize = 0;
        while i < self.applied.len()
            invariant
                i <= self.applied@.len(),
                forall|j: int| 0 <= j < i ==> (#[trigger] self.applied@[j]).surface_id@ != surface_id@,
            decreases self.applied.len() - i,
        {
            if self.applied[i].surface_id == *surface_id {
                return Some(i);
            }
            i = i + 1;
        }
        None
    }

    /// Applies `material` to the selected surface, replacing what that
    /// surface had; other surfaces and the selection are unchanged.
    pub fn apply_material_to_selection(&mut self, material: MaterialApplication)
        ensures
            final(self).selection() == old(self).selection(),
            final(self).applied() == old(self).applied().insert(
                old(self).selection().0,
                application_record(old(self).selection().0, old(self).selection().1, material),
            ),
            final(self).applied_in_order() == recorded(
                old(self).applied_in_order(),
                application_record(old(self).selection().0, old(self).selection().1, material),
            ),
    {
        proof {
            use_type_invariant(&*self);
        }
        let ghost m = material;
        let record = AppliedMaterial {
            surface_id: self.selected.id.clone(),
            surface_label: self.selected.label.clone(),
            material_id: material.id,
            material_name: material.name,
            thumbnail_url: material.thumbnail_url,
            categories: material.categories,
            authors: material.authors,
            maps: material.maps,
        };
        assert(record@ == application_record(self.selected.id@, self.selected.label@, m));
        let ghost before = applied_view(self.applied@);
        let mut list: Vec<AppliedMaterial> = Vec::new();
        assert(distinct_surfaces(applied_view(list@)));
        std::mem::swap(&mut list, &mut self.applied);
        assert(applied_view(list@) == before);
        match self.find_surface_in(&list, &record.surface_id) {
            Some(i) => {
                proof {
                    lemma_applied_map_update(before, i as int, record@);
                    assert(before[i as int].surface_id == record@.surface_id);
                    let j = choose|j: int| 0 <= j < before.len() && (#[trigger] before[j]).surface_id == record@.surface_id;
                    if j != i as int {
                        if j < i {
                            assert(before[j].surface_id != before[i as int].surface_id);
                        } else {
                            assert(before[i as int].surface_id != before[j].surface_id);
                        }
                    }
                }
                let ghost rv = record@;
                list.set(i, record);
                assert(applied_view(list@) =~= before.update(i as int, rv));
            },
            None => {
                let ghost rv = record@;
                proof {
                    assert forall|j: int| 0 <= j < before.len() implies (#[trigger] before[j]).surface_id != rv.surface_id by {
                        assert(before[j] == list@[j]@);
                    }
                }
                list.push(record);
                assert(applied_view(list@) =~= before.push(rv));
                assert(distinct_surfaces(applied_view(list@))) by {
                    assert forall|a: int, b: int| 0 <= a < b < applied_view(list@).len() implies (#[trigger] applied_view(list@)[a]).surface_id
                        != (#[trigger] applied_view(list@)[b]).surface_id by {
                        if b == before.len() {
                            assert(applied_view(list@)[a] == list@[a]@);
                        }
                    }
                }
                assert(applied_map(applied_view(list@)) =~= applied_map(before).insert(rv.surface_id, rv)) by {
                    assert(applied_view(list@).drop_last() =~= before);
                }
            },
        }
        self.applied = list;
    }

    /// The preview material of what is applied to the selected surface, if
    /// anything is.
    pub fn applied_preview_material(&self) -> (r: Option<PreviewMaterial>)
        ensures
            r is Some <==> self.applied().contains_key(self.selection().0),
            r matches Some(p) ==> p@ == preview_of(self.applied()[self.selection().0]),
    {
        proof {
            use_type_invariant(self);
        }
        match self.find_surface(&self.selected.id) {
            Some(i) => {
                proof {
                    assert(applied_view(self.applied@)[i as int] == self.applied@[i as int]@);
                    lemma_applied_map_lookup(applied_view(self.applied@), i as int);
                }
                Some(PreviewMaterial::from(&self.applied[i]))
            },
            None => {
                proof {
                    let v = applied_view(self.applied@);
                    assert forall|j: int| 0 <= j < v.len() implies (#[trigger] v[j]).surface_id != self.selected.id@ by {
                        assert(v[j] == self.applied@[j]@);
                    }
                    lemma_applied_map_missing(v, self.selected.id@);
                }
                None
            },
        }
    }

    /// The applied materials ordered by surface label (stably, so equal
    /// labels keep the order their surfaces first got a material).
    pub fn applied_materials_by_label(&self) -> (r: Vec<AppliedMaterial>)
        ensures
            stably_sorted(self.applied_in_order(), label_keys(self.applied_in_order()), applied_view(r@)),
    {
        let mut items: Vec<AppliedMaterial> = Vec::new();
        let mut keys: Vec<SortKey> = Vec::new();
        let mut i: usize = 0;
        while i < self.applied.len()
            invariant
                i <= self.applied@.len(),
                items@.len() == i,
                keys@.len() == i,
                forall|j: int| 0 <= j < i ==> (#[trigger] items@[j])@ == self.applied@[j]@,
                forall|j: int| 0 <= j < i ==> (#[trigger] keys@[j])@ == (0int, 0int, self.applied@[j].surface_label@),
            decreases self.applied.len() - i,
        {
            items.push(self.applied[i].duplicate());
            keys.push(SortKey { major: 0, minor: 0, text: chars_of(self.applied[i].surface_label.as_str()) });
            i = i + 1;
        }
        let ghost iv = applied_view(items@);
        assert(iv =~= self.applied_in_order());
        assert(key_views(keys@) =~= label_keys(self.applied_in_order()));
        let (sorted, Ghost(perm)) = stable_sort_by_keys(items, &keys);
        assert(applied_view(sorted@) =~= arrange(iv, perm));
        sorted
    }

    fn find_surface_in(&self, list: &Vec<AppliedMaterial>, surface_id: &String) -> (r: Option<usize>)
        ensures
            match r {
                Some(i) => i < list@.len() && list@[i as int].surface_id@ == surface_id@,
                None => forall|j: int| 0 <= j < list@.len() ==> (#[trigger] list@[j]).surface_id@ != surface_id@,
            },
    {
        let mut i: usize = 0;
        while i < list.len()
            invariant
                i <= list@.len(),
                forall|j: int| 0 <= j < i ==> (#[trigger] list@[j]).surface_id@ != surface_id@,
            decreases list.len() - i,
        {
            if list[i].surface_id == *surface_id {
                return Some(i);
            }
            i = i + 1;
        }
        None
    }
}

/// The preview material that applying `material` gives.
pub open spec fn preview_of_application(material: MaterialApplication) -> PreviewMaterialView {
    PreviewMaterialView {
        name: material.name@,
        categories: strings_view(material.categories@),
        maps: files_view(material.maps@),
    }
}

/// Read after write: once `material` is applied to the selected surface,
/// that surface previews with the material's name, categories and maps, and
/// every other surface keeps what it had.
pub proof fn lemma_applied_material_is_previewed(
    before: RendererSession,
    after: RendererSession,
    material: MaterialApplication,
)
    requires
        after.selection() == before.selection(),
        after.applied() == before.applied().insert(
            before.selection().0,
            application_record(before.selection().0, before.selection().1, material),
        ),
    ensures
        after.applied().contains_key(after.selection().0),
        preview_of(after.applied()[after.selection().0]) == preview_of_application(material),
        forall|id: Seq<char>|
            id != before.selection().0 ==> (#[trigger] after.applied().contains_key(id) == before.applied().contains_key(
                id,
            ) && (before.applied().contains_key(id) ==> after.applied()[id] == before.applied()[id])),
{
}

/// Applying a material records it whole: the selected surface's record
/// carries the surface's id and label and the application's id, name,
/// thumbnail, categories, authors and maps unchanged.
pub proof fn lemma_applied_record_keeps_the_application(
    before: RendererSession,
    after: RendererSession,
    material: MaterialApplication,
)
    requires
        after.selection() == before.selection(),
        after.applied() == before.applied().insert(
            before.selection().0,
            application_record(before.selection().0, before.selection().1, material),
        ),
    ensures
        after.applied().contains_key(before.selection().0),
        ({
            let r = after.applied()[before.selection().0];
            &&& r.surface_id == before.selection().0
            &&& r.surface_label == before.selection().1
            &&& r.material_id == material.id@
            &&& r.material_name == material.name@
            &&& r.thumbnail_url == opt_view(material.thumbnail_url)
            &&& r.categories == strings_view(material.categories@)
            &&& r.authors == strings_view(material.authors@)
            &&& r.maps == files_view(material.maps@)
        }),
{
}

/// A material stays with its surface: apply it, select another surface,
/// select the first one again, and it previews with that material.
pub proof fn lemma_material_survives_reselection(
    start: RendererSession,
    applied: RendererSession,
    elsewhere: RendererSession,
    back: RendererSession,
    material: MaterialApplication,
    other: (Seq<char>, Seq<char>),
    label: Seq<char>,
)
    requires
        applied.selection() == start.selection(),
        applied.applied() == start.applied().insert(
            start.selection().0,
            application_record(start.selection().0, start.selection().1, material),
        ),
        elsewhere.selection() == other,
        elsewhere.applied() == applied.applied(),
        back.selection() == (start.selection().0, label),
        back.applied() == elsewhere.applied(),
    ensures
        back.applied().contains_key(back.selection().0),
        preview_of(back.applied()[back.selection().0]) == preview_of_application(material),
{
}

/// Sort keys that order applied materials by surface label.
pub open spec fn label_keys(v: Seq<AppliedMaterialView>) -> Seq<KeyView> {
    v.map_values(|m: AppliedMaterialView| (0int, 0int, m.surface_label))
}

// ---------------------------------------------------------------------------
// Traits of a material that drive its preview.
// ---------------------------------------------------------------------------

/// Some map of the material has exactly this role.
pub open spec fn has_role(m: PreviewMaterialView, role: Seq<char>) -> bool {
    exists|i: int| 0 <= i < m.maps.len() && (#[trigger] m.maps[i]).role == role
}

/// Some category of the material, lower-cased, contains this text.
pub open spec fn has_category(m: PreviewMaterialView, category: Seq<char>) -> bool {
    exists|i: int| 0 <= i < m.categories.len() && seq_contains(text_lower(#[trigger] m.categories[i]), category)
}

/// Whether some map of the material has role `role`.
pub fn material_has_role(material: &PreviewMaterial, role: &str) -> (r: bool)
    ensures
        r == has_role(material@, role@),
{
    let mut i: usize = 0;
    while i < material.maps.len()
        invariant
            i <= material.maps@.len(),
            forall|j: int| 0 <= j < i ==> (#[trigger] material@.maps[j]).role != role@,
        decreases material.maps.len() - i,
    {
        assert(material@.maps[i as int] == material.maps@[i as int]@);
        if str_equal(material.maps[i].role.as_str(), role) {
            return true;
        }
        i = i + 1;
    }
    false
}

/// Whether some category of the material, lower-cased, contains `category`.
pub fn material_has_category(material: &PreviewMaterial, category: &str) -> (r: bool)
    ensures
        r == has_category(material@, category@),
{
    let needle = chars_of(category);
    let mut i: usize = 0;
    while i < material.categories.len()
        invariant
            i <= material.categories@.len(),
            needle@ == category@,
            forall|j: int| 0 <= j < i ==> !seq_contains(text_lower(#[trigger] material@.categories[j]), category@),
        decreases material.categories.len() - i,
    {
        assert(material@.categories[i as int] == material.categories@[i as int]@);
        let lowered = to_lowercase(material.categories[i].as_str());
        if chars_contain(&chars_of(lowered.as_str()), &needle) {
            return true;
        }
        i = i + 1;
    }
    false
}

/// The surface family that sets a material's base roughness.
pub enum SurfaceFamily {
    /// Fabric, brick, rock or terrain.
    Coarse,
    /// Wood.
    Wood,
    /// Metal.
    Metal,
    /// Anything else.
    Other,
}

/// What decides a material's preview roughness.
pub struct RoughnessTraits {
    pub family: SurfaceFamily,
    /// It has a normal or displacement map.
    pub has_relief_map: bool,
    /// It has a roughness (or packed occlusion/roughness/metallic) map.
    pub has_roughness_map: bool,
}

/// The surface family of a material, judged on its categories in the order
/// coarse, wood, metal.
pub open spec fn surface_family(m: PreviewMaterialView) -> SurfaceFamily {
    if has_category(m, "fabric"@) || has_category(m, "brick"@) || has_category(m, "rock"@) || has_category(m, "terrain"@) {
        SurfaceFamily::Coarse
    } else if has_category(m, "wood"@) {
        SurfaceFamily::Wood
    } else if has_category(m, "metal"@) {
        SurfaceFamily::Metal
    } else {
        SurfaceFamily::Other
    }
}

/// The traits that decide a material's preview roughness.
pub fn roughness_traits(material: &PreviewMaterial) -> (r: RoughnessTraits)
    ensures
        r.family == surface_family(material@),
        r.has_relief_map == (has_role(material@, "normal"@) || has_role(material@, "displacement"@)),
        r.has_roughness_map == (has_role(material@, "roughness"@) || has_role(material@, "occlusionRoughnessMetallic"@)),
{
    let family = if material_has_category(material, "fabric") || material_has_category(material, "brick")
        || material_has_category(material, "rock") || material_has_category(material, "terrain") {
        SurfaceFamily::Coarse
    } else if material_has_category(material, "wood") {
        SurfaceFamily::Wood
    } else if material_has_category(material, "metal") {
        SurfaceFamily::Metal
    } else {
        SurfaceFamily::Other
    };
    RoughnessTraits {
        family,
        has_relief_map: material_has_role(material, "normal") || material_has_role(material, "displacement"),
        has_roughness_map: material_has_role(material, "roughness") || material_has_role(
            material,
            "occlusionRoughnessMetallic",
        ),
    }
}

/// Some category of `categories`, lower-cased, contains `word`.
pub open spec fn some_category_contains(categories: Seq<Seq<char>>, word: Seq<char>) -> bool {
    exists|i: int| 0 <= i < categories.len() && seq_contains(text_lower(#[trigger] categories[i]), word)
}

/// The surface family follows the category words, first match winning: a
/// category mentioning `fabric`, `brick`, `rock` or `terrain` makes the
/// material coarse; else one mentioning `wood` makes it wood; else one
/// mentioning `metal` makes it metal; else it is other.
pub proof fn lemma_surface_family_by_category(m: PreviewMaterialView)
    ensures
        ({
            let c = m.categories;
            let coarse = some_category_contains(c, "fabric"@) || some_category_contains(c, "brick"@)
                || some_category_contains(c, "rock"@) || some_category_contains(c, "terrain"@);
            &&& coarse ==> surface_family(m) is Coarse
            &&& !coarse && some_category_contains(c, "wood"@) ==> surface_family(m) is Wood
            &&& !coarse && !some_category_contains(c, "wood"@) && some_category_contains(c, "metal"@)
                ==> surface_family(m) is Metal
            &&& !coarse && !some_category_contains(c, "wood"@) && !some_category_contains(c, "metal"@)
                ==> surface_family(m) is Other
        }),
{
}

/// Whether the preview treats the material as metallic: it has a metallic
/// map or a metal category.
pub fn previews_as_metallic(material: &PreviewMaterial) -> (r: bool)
    ensures
        r == (has_role(material@, "metallic"@) || has_category(material@, "metal"@)),
{
    material_has_role(material, "metallic") || material_has_category(material, "metal")
}

/// The rolling hash of a byte string: `h = h * 31 + byte`, wrapping in a `u32`.
pub open spec fn name_hash(bytes: Seq<u8>) -> u32
    decreases bytes.len(),
{
    if bytes.len() == 0 {
        0
    } else {
        ((name_hash(bytes.drop_last()) as int * 31 + bytes.last() as int) % 0x1_0000_0000) as u32
    }
}

/// The three accent channels (low, middle and high byte of the name hash)
/// that tint a material's preview, or none for a missing or empty name.
pub open spec fn accent_channels(name: Option<Seq<char>>) -> Option<(u8, u8, u8)> {
    match name {
        Some(n) => if n.len() > 0 {
            let h = name_hash(vstd::utf8::encode_utf8(n));
            Some(((h & 0xff) as u8, ((h >> 8) & 0xff) as u8, ((h >> 16) & 0xff) as u8))
        } else {
            None
        },
        None => None,
    }
}

/// The accent channels of a material name, hashed over its UTF-8 bytes.
pub fn material_accent_channels(name: Option<&str>) -> (r: Option<(u8, u8, u8)>)
    ensures
        r == accent_channels(match name {
            Some(n) => Some(n@),
            None => None,
        }),
{
    match name {
        None => None,
        Some(n) => {
            if n.is_empty() {
                return None;
            }
            let bytes = n.as_bytes();
            let mut hash: u32 = 0;
            let mut i: usize = 0;
            assert(bytes@.subrange(0, 0) =~= Seq::<u8>::empty());
            while i < bytes.len()
                invariant
                    i <= bytes@.len(),
                    hash == name_hash(bytes@.subrange(0, i as int)),
                decreases bytes.len() - i,
            {
                proof {
                    let p = bytes@.subrange(0, i + 1);
                    assert(p.drop_last() =~= bytes@.subrange(0, i as int));
                }
                hash = hash.wrapping_mul(31).wrapping_add(bytes[i] as u32);
                proof {
                    let h0 = name_hash(bytes@.subrange(0, i as int));
                    assert(hash as int == (((h0 as int * 31) % 0x1_0000_0000) + bytes@[i as int] as int) % 0x1_0000_0000);
                    assert((((h0 as int * 31) % 0x1_0000_0000) + bytes@[i as int] as int) % 0x1_0000_0000
                        == (h0 as int * 31 + bytes@[i as int] as int) % 0x1_0000_0000) by (nonlinear_arith);
                }
                i = i + 1;
            }
            assert(bytes@.subrange(0, bytes@.len() as int) =~= bytes@);
            Some(((hash & 0xff) as u8, ((hash >> 8) & 0xff) as u8, ((hash >> 16) & 0xff) as u8))
        },
    }
}

} // verus!
