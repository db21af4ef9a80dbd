//! Poly Haven texture files: map roles, ranking, and download selection.

use vstd::prelude::*;
use crate::order::{
    arrange, is_stable_order, key_views, lemma_placed_before_irreflexive, lemma_stably_sorted_ascends, lists,
    placed_before, stable_sort_by_keys,
    stably_sorted, KeyView, SortKey,
};
use crate::text::{
    append_str, ascii_alnum, chars_less, chars_of, is_ascii_alnum, lemma_seq_lt_irreflexive, lemma_seq_lt_total, lemma_seq_lt_transitive,
    text_lower, owned, parse_u32, parse_u32_spec, seq_contains, seq_lt, str_contains, str_equal,
    string_from_chars, to_lowercase, trim, trimmed,
};

verus! {

/// One downloadable texture file of a Poly Haven material.
pub struct MaterialFile {
    pub map: String,
    pub role: String,
    pub resolution: String,
    pub format: String,
    pub url: String,
    pub md5: Option<String>,
    pub size: Option<u64>,
}

/// The mathematical value of a [`MaterialFile`].
pub struct MaterialFileView {
    pub map: Seq<char>,
    pub role: Seq<char>,
    pub resolution: Seq<char>,
    pub format: Seq<char>,
    pub url: Seq<char>,
    pub md5: Option<Seq<char>>,
    pub size: Option<u64>,
}

/// The characters of an optional string.
pub open spec fn opt_view(s: Option<String>) -> Option<Seq<char>> {
    match s {
        Some(v) => Some(v@),
        None => None,
    }
}

impl View for MaterialFile {
    type V = MaterialFileView;

    open spec fn view(&self) -> MaterialFileView {
        MaterialFileView {
            map: self.map@,
            role: self.role@,
            resolution: self.resolution@,
            format: self.format@,
            url: self.url@,
            md5: opt_view(self.md5),
            size: self.size,
        }
    }
}

/// The values of a sequence of files.
pub open spec fn files_view(files: Seq<MaterialFile>) -> Seq<MaterialFileView> {
    files.map_values(|f: MaterialFile| f@)
}

/// The characters of each string of a sequence.
pub open spec fn strings_view(v: Seq<String>) -> Seq<Seq<char>> {
    v.map_values(|s: String| s@)
}

/// Copies an optional string.
pub fn copy_opt_string(s: &Option<String>) -> (r: Option<String>)
    ensures
        opt_view(r) == opt_view(*s),
{
    match s {
        Some(v) => Some(v.clone()),
        None => None,
    }
}

impl MaterialFile {
    /// A copy of this file record.
    pub fn duplicate(&self) -> (r: MaterialFile)
        ensures
            r@ == self@,
    {
        MaterialFile {
            map: self.map.clone(),
            role: self.role.clone(),
            resolution: self.resolution.clone(),
            format: self.format.clone(),
            url: self.url.clone(),
            md5: copy_opt_string(&self.md5),
            size: self.size,
        }
    }
}

/// Copies a list of file records.
pub fn duplicate_files(files: &Vec<MaterialFile>) -> (r: Vec<MaterialFile>)
    ensures
        files_view(r@) == files_view(files@),
{
    let mut out: Vec<MaterialFile> = Vec::new();
    let mut i: usize = 0;
    while i < files.len()
        invariant
            i <= files@.len(),
            out@.len() == i,
            forall|j: int| 0 <= j < i ==> (#[trigger] out@[j])@ == files@[j]@,
        decreases files.len() - i,
    {
        out.push(files[i].duplicate());
        i = i + 1;
    }
    assert(files_view(out@) =~= files_view(files@));
    out
}

/// Copies a list of strings.
pub fn duplicate_strings(v: &Vec<String>) -> (r: Vec<String>)
    ensures
        strings_view(r@) == strings_view(v@),
{
    let mut out: Vec<String> = Vec::new();
    let mut i: usize = 0;
    while i < v.len()
        invariant
            i <= v@.len(),
            out@.len() == i,
            forall|j: int| 0 <= j < i ==> (#[trigger] out@[j])@ == v@[j]@,
        decreases v.len() - i,
    {
        out.push(v[i].clone());
        i = i + 1;
    }
    assert(strings_view(out@) =~= strings_view(v@));
    out
}

// ---------------------------------------------------------------------------
// Ranks.
// ---------------------------------------------------------------------------

/// The display order of a map role: base color first, unknown roles last.
pub open spec fn role_rank_spec(role: Seq<char>) -> u8 {
    if role == "baseColor"@ {
        0
    } else if role == "roughness"@ {
        1
    } else if role == "normal"@ {
        2
    } else if role == "metallic"@ {
        3
    } else if role == "ambientOcclusion"@ {
        4
    } else if role == "occlusionRoughnessMetallic"@ {
        5
    } else if role == "displacement"@ {
        6
    } else if role == "specular"@ {
        7
    } else {
        8
    }
}

/// The display order of a map role.
pub fn role_rank(role: &str) -> (r: u8)
    ensures
        r == role_rank_spec(role@),
{
    if str_equal(role, "baseColor") {
        0
    } else if str_equal(role, "roughness") {
        1
    } else if str_equal(role, "normal") {
        2
    } else if str_equal(role, "metallic") {
        3
    } else if str_equal(role, "ambientOcclusion") {
        4
    } else if str_equal(role, "occlusionRoughnessMetallic") {
        5
    } else if str_equal(role, "displacement") {
        6
    } else if str_equal(role, "specular") {
        7
    } else {
        8
    }
}

/// Preference among map variants: OpenGL normals and the plain maps first,
/// DirectX normals next, anything else last.
pub open spec fn map_rank_spec(map: Seq<char>) -> u8 {
    if map == "nor_gl"@ || map == "diff"@ || map == "rough"@ || map == "metal"@ || map == "disp"@ {
        0
    } else if map == "nor_dx"@ {
        1
    } else {
        2
    }
}

/// Preference among map variants.
pub fn map_rank(map: &str) -> (r: u8)
    ensures
        r == map_rank_spec(map@),
{
    if str_equal(map, "nor_gl") || str_equal(map, "diff") || str_equal(map, "rough") || str_equal(
        map,
        "metal",
    ) || str_equal(map, "disp") {
        0
    } else if str_equal(map, "nor_dx") {
        1
    } else {
        2
    }
}

/// Preference among file formats: PNG, then JPEG, then EXR, then others.
pub open spec fn format_rank_spec(format: Seq<char>) -> u8 {
    if format == "png"@ {
        0
    } else if format == "jpg"@ || format == "jpeg"@ {
        1
    } else if format == "exr"@ {
        2
    } else {
        3
    }
}

/// Preference among file formats.
pub fn format_rank(format: &str) -> (r: u8)
    ensures
        r == format_rank_spec(format@),
{
    if str_equal(format, "png") {
        0
    } else if str_equal(format, "jpg") || str_equal(format, "jpeg") {
        1
    } else if str_equal(format, "exr") {
        2
    } else {
        3
    }
}

/// The preference of a file: format rank, then map rank (smaller is better).
pub open spec fn file_rank_spec(file: MaterialFileView) -> (u8, u8) {
    (format_rank_spec(file.format), map_rank_spec(file.map))
}

/// The preference of a file.
pub fn file_rank(file: &MaterialFile) -> (r: (u8, u8))
    ensures
        r == file_rank_spec(file@),
{
    (format_rank(file.format.as_str()), map_rank(file.map.as_str()))
}

/// Lexicographic "strictly better" on file ranks.
pub open spec fn rank_lt(a: (u8, u8), b: (u8, u8)) -> bool {
    a.0 < b.0 || (a.0 == b.0 && a.1 < b.1)
}

// ---------------------------------------------------------------------------
// Map roles.
// ---------------------------------------------------------------------------

/// The role of a map whose lower-cased name is `n`.
pub open spec fn role_for_normalized(n: Seq<char>) -> Seq<char> {
    if seq_contains(n, "diff"@) || seq_contains(n, "color"@) || n == "albedo"@ {
        "baseColor"@
    } else if seq_contains(n, "rough"@) {
        "roughness"@
    } else if seq_contains(n, "nor"@) || seq_contains(n, "normal"@) {
        "normal"@
    } else if seq_contains(n, "metal"@) {
        "metallic"@
    } else if seq_contains(n, "arm"@) {
        "occlusionRoughnessMetallic"@
    } else if seq_contains(n, "ao"@) {
        "ambientOcclusion"@
    } else if seq_contains(n, "disp"@) || seq_contains(n, "height"@) {
        "displacement"@
    } else if seq_contains(n, "spec"@) {
        "specular"@
    } else {
        "auxiliary"@
    }
}

/// The role of a map whose name has already been lower-cased.
pub fn material_role_for_lowercase(normalized: &str) -> (r: String)
    ensures
        r@ == role_for_normalized(normalized@),
{
    let n = normalized;
    if str_contains(n, "diff") || str_contains(n, "color") || str_equal(n, "albedo") {
        owned("baseColor")
    } else if str_contains(n, "rough") {
        owned("roughness")
    } else if str_contains(n, "nor") || str_contains(n, "normal") {
        owned("normal")
    } else if str_contains(n, "metal") {
        owned("metallic")
    } else if str_contains(n, "arm") {
        owned("occlusionRoughnessMetallic")
    } else if str_contains(n, "ao") {
        owned("ambientOcclusion")
    } else if str_contains(n, "disp") || str_contains(n, "height") {
        owned("displacement")
    } else if str_contains(n, "spec") {
        owned("specular")
    } else {
        owned("auxiliary")
    }
}

/// The role of a Poly Haven map, judged on its lower-cased name.
pub fn material_role(map: &str) -> (r: String)
    ensures
        r@ == role_for_normalized(text_lower(map@)),
{
    let normalized = to_lowercase(map);
    material_role_for_lowercase(normalized.as_str())
}


// ---------------------------------------------------------------------------
// Choosing one file per role.
// ---------------------------------------------------------------------------

/// The caller asked for `role` (an empty request asks for every role).
pub open spec fn role_requested(requested: Seq<Seq<char>>, role: Seq<char>) -> bool {
    requested.len() == 0 || requested.contains(role)
}

/// The position of the first file with `role` in `chosen`, or -1.
pub open spec fn role_slot(chosen: Seq<MaterialFileView>, role: Seq<char>) -> int
    decreases chosen.len(),
{
    if chosen.len() == 0 {
        -1
    } else {
        let earlier = role_slot(chosen.drop_last(), role);
        if earlier >= 0 {
            earlier
        } else if chosen.last().role == role {
            chosen.len() - 1
        } else {
            -1
        }
    }
}

/// Offers `f` to the per-role choice: a new role is appended, and a file
/// replaces the current choice for its role only if it ranks strictly better.
pub open spec fn keep_best(chosen: Seq<MaterialFileView>, f: MaterialFileView) -> Seq<MaterialFileView> {
    let slot = role_slot(chosen, f.role);
    if slot < 0 {
        chosen.push(f)
    } else if rank_lt(file_rank_spec(f), file_rank_spec(chosen[slot])) {
        chosen.update(slot, f)
    } else {
        chosen
    }
}

/// The best requested file of each role, roles in order of first appearance.
pub open spec fn best_per_role(files: Seq<MaterialFileView>, requested: Seq<Seq<char>>) -> Seq<MaterialFileView>
    decreases files.len(),
{
    if files.len() == 0 {
        Seq::empty()
    } else {
        let prev = best_per_role(files.drop_last(), requested);
        if role_requested(requested, files.last().role) {
            keep_best(prev, files.last())
        } else {
            prev
        }
    }
}

/// Sort keys that order files by role rank alone.
pub open spec fn role_keys(files: Seq<MaterialFileView>) -> Seq<KeyView> {
    files.map_values(|f: MaterialFileView| (role_rank_spec(f.role) as int, 0int, Seq::<char>::empty()))
}

/// What `select_download_files` returns: the best requested file of each
/// role, stably sorted by role rank.
pub open spec fn selected_downloads(
    files: Seq<MaterialFileView>,
    requested: Seq<Seq<char>>,
    result: Seq<MaterialFileView>,
) -> bool {
    stably_sorted(best_per_role(files, requested), role_keys(best_per_role(files, requested)), result)
}

fn is_role_requested(requested: &Vec<String>, role: &String) -> (r: bool)
    ensures
        r == role_requested(strings_view(requested@), role@),
{
    if requested.len() == 0 {
        return true;
    }
    let mut i: usize = 0;
    while i < requested.len()
        invariant
            i <= requested@.len(),
            forall|j: int| 0 <= j < i ==> requested@[j]@ != role@,
        decreases requested.len() - i,
    {
        if requested[i] == *role {
            assert(strings_view(requested@)[i as int] == role@);
            return true;
        }
        i = i + 1;
    }
    assert(!strings_view(requested@).contains(role@)) by {
        assert forall|j: int| 0 <= j < strings_view(requested@).len() implies strings_view(
            requested@,
        )[j] != role@ by {
            assert(strings_view(requested@)[j] == requested@[j]@);
        }
    }
    false
}

fn find_role(chosen: &Vec<MaterialFile>, role: &String) -> (r: Option<usize>)
    ensures
        match r {
            Some(k) => k as int == role_slot(files_view(chosen@), role@),
            None => role_slot(files_view(chosen@), role@) == -1,
        },
{
    let ghost cv = files_view(chosen@);
    let mut i: usize = 0;
    while i < chosen.len()
        invariant
            cv == files_view(chosen@),
            i <= chosen@.len(),
            role_slot(cv.subrange(0, i as int), role@) == -1,
        decreases chosen.len() - i,
    {
        proof {
            let p = cv.subrange(0, i + 1);
            assert(p.drop_last() =~= cv.subrange(0, i as int));
            assert(p.last() == chosen@[i as int]@);
        }
        if chosen[i].role == *role {
            proof {
                lemma_role_slot_extend(cv, i as int + 1, role@);
            }
            return Some(i);
        }
        i = i + 1;
    }
    assert(cv.subrange(0, i as int) =~= cv);
    None
}

/// The slot of a role is a position holding that role, or -1.
proof fn lemma_role_slot_bounds(s: Seq<MaterialFileView>, role: Seq<char>)
    ensures
        -1 <= role_slot(s, role) < s.len(),
        role_slot(s, role) >= 0 ==> s[role_slot(s, role)].role == role,
    decreases s.len(),
{
    if s.len() > 0 {
        lemma_role_slot_bounds(s.drop_last(), role);
        let e = role_slot(s.drop_last(), role);
        if e >= 0 {
            assert(s[e] == s.drop_last()[e]);
        }
    }
}

/// A slot found in a prefix stays the slot of the whole sequence.
proof fn lemma_role_slot_extend(s: Seq<MaterialFileView>, k: int, role: Seq<char>)
    requires
        0 <= k <= s.len(),
        role_slot(s.subrange(0, k), role) >= 0,
    ensures
        role_slot(s, role) == role_slot(s.subrange(0, k), role),
    decreases s.len() - k,
{
    if k < s.len() {
        let t = s.subrange(0, k + 1);
        assert(t.drop_last() =~= s.subrange(0, k));
        lemma_role_slot_extend(s, k + 1, role);
    } else {
        assert(s.subrange(0, k) =~= s);
    }
}

/// The view of a sorted arrangement is the arrangement of the views.
proof fn lemma_arrange_files_view(items: Seq<MaterialFile>, perm: Seq<int>)
    requires
        forall|i: int| 0 <= i < perm.len() ==> 0 <= #[trigger] perm[i] < items.len(),
    ensures
        files_view(arrange(items, perm)) == arrange(files_view(items), perm),
{
    assert(files_view(arrange(items, perm)) =~= arrange(files_view(items), perm));
}

fn role_sort_keys(files: &Vec<MaterialFile>) -> (keys: Vec<SortKey>)
    ensures
        key_views(keys@) == role_keys(files_view(files@)),
{
    let mut keys: Vec<SortKey> = Vec::new();
    let mut i: usize = 0;
    while i < files.len()
        invariant
            i <= files@.len(),
            keys@.len() == i,
            forall|j: int| 0 <= j < i ==> (#[trigger] keys@[j])@ == (role_rank_spec(files@[j].role@) as int, 0int, Seq::<char>::empty()),
        decreases files.len() - i,
    {
        let rank = role_rank(files[i].role.as_str());
        let key = SortKey { major: rank as i128, minor: 0, text: Vec::new() };
        assert(key.text@ =~= Seq::<char>::empty());
        keys.push(key);
        i = i + 1;
    }
    assert(key_views(keys@) =~= role_keys(files_view(files@)));
    keys
}

/// Picks at most one file per role for download: files whose role was not
/// requested are skipped (an empty request takes every role), the file with
/// the best [`file_rank`] wins within a role (the first one on ties), and
/// the winners are ordered by [`role_rank`] (roles of equal rank keep the
/// order in which they first appeared).
pub fn select_download_files(files: Vec<MaterialFile>, requested_roles: &Vec<String>) -> (r: Vec<MaterialFile>)
    ensures
        selected_downloads(files_view(files@), strings_view(requested_roles@), files_view(r@)),
{
    let ghost fv = files_view(files@);
    let ghost req = strings_view(requested_roles@);
    let n = files.len();
    let mut rest = files;
    let mut chosen: Vec<MaterialFile> = Vec::new();
    let mut i: usize = 0;
    while i < n
        invariant
            n == fv.len(),
            i <= n,
            rest@.len() == n - i,
            forall|j: int| 0 <= j < n - i ==> (#[trigger] rest@[j])@ == fv[i + j],
            req == strings_view(requested_roles@),
            files_view(chosen@) == best_per_role(fv.subrange(0, i as int), req),
        decreases n - i,
    {
        let ghost before = files_view(chosen@);
        let ghost old_rest = rest@;
        let file = rest.remove(0);
        proof {
            assert forall|j: int| 0 <= j < n - (i + 1) implies (#[trigger] rest@[j])@ == fv[i + 1 + j] by {
                assert(rest@[j] == old_rest[j + 1]);
            }
            assert(file == old_rest[0]);
            assert(file@ == fv[i as int]);
            lemma_role_slot_bounds(before, file@.role);
            let p = fv.subrange(0, i + 1);
            assert(p.drop_last() =~= fv.subrange(0, i as int));
            assert(p.last() == file@);
        }
        if is_role_requested(requested_roles, &file.role) {
            match find_role(&chosen, &file.role) {
                Some(k) => {
                    let better = {
                        let a = file_rank(&file);
                        let b = file_rank(&chosen[k]);
                        a.0 < b.0 || (a.0 == b.0 && a.1 < b.1)
                    };
                    if better {
                        chosen.set(k, file);
                        assert(files_view(chosen@) =~= before.update(k as int, fv[i as int]));
                    }
                },
                None => {
                    chosen.push(file);
                    assert(files_view(chosen@) =~= before.push(fv[i as int]));
                },
            }
        }
        i = i + 1;
    }
    assert(fv.subrange(0, n as int) =~= fv);
    let keys = role_sort_keys(&chosen);
    let ghost cv = files_view(chosen@);
    assert(key_views(keys@).len() == keys@.len());
    assert(role_keys(cv).len() == chosen@.len());
    let (sorted, Ghost(perm)) = stable_sort_by_keys(chosen, &keys);
    proof {
        lemma_arrange_files_view(chosen@, perm);
        assert(is_stable_order(role_keys(cv), perm));
    }
    sorted
}


// ---------------------------------------------------------------------------
// Laws of the selection.
// ---------------------------------------------------------------------------

/// `chosen` holds at most one file per role, each a requested file of
/// `files` that no file of the same role outranks, and every requested role
/// of `files` is covered.
pub open spec fn best_file_per_role(
    files: Seq<MaterialFileView>,
    requested: Seq<Seq<char>>,
    chosen: Seq<MaterialFileView>,
) -> bool {
    &&& forall|i: int, j: int| 0 <= i < j < chosen.len() ==> (#[trigger] chosen[i]).role != (#[trigger] chosen[j]).role
    &&& forall|i: int| 0 <= i < chosen.len() ==> files.contains(#[trigger] chosen[i])
    &&& forall|i: int| 0 <= i < chosen.len() ==> role_requested(requested, (#[trigger] chosen[i]).role)
    &&& forall|i: int, k: int|
        0 <= i < chosen.len() && 0 <= k < files.len() && (#[trigger] files[k]).role == (#[trigger] chosen[i]).role
            ==> !rank_lt(file_rank_spec(files[k]), file_rank_spec(chosen[i]))
    &&& forall|k: int|
        0 <= k < files.len() && role_requested(requested, (#[trigger] files[k]).role) ==> exists|i: int|
            0 <= i < chosen.len() && (#[trigger] chosen[i]).role == files[k].role
}

proof fn lemma_role_slot_absent(s: Seq<MaterialFileView>, role: Seq<char>)
    requires
        role_slot(s, role) < 0,
    ensures
        forall|i: int| 0 <= i < s.len() ==> (#[trigger] s[i]).role != role,
    decreases s.len(),
{
    if s.len() > 0 {
        lemma_role_slot_absent(s.drop_last(), role);
        assert forall|i: int| 0 <= i < s.len() implies (#[trigger] s[i]).role != role by {
            if i < s.len() - 1 {
                assert(s[i] == s.drop_last()[i]);
            }
        }
    }
}

/// Facts that every branch of a step of [`best_per_role`] starts from.
proof fn lemma_prefix_members(files: Seq<MaterialFileView>)
    requires
        files.len() > 0,
    ensures
        forall|x: MaterialFileView| files.drop_last().contains(x) ==> files.contains(x),
        files.contains(files.last()),
        forall|k: int| 0 <= k < files.len() - 1 ==> #[trigger] files[k] == files.drop_last()[k],
{
    let rest = files.drop_last();
    assert forall|x: MaterialFileView| rest.contains(x) implies files.contains(x) by {
        let k = choose|k: int| 0 <= k < rest.len() && rest[k] == x;
        assert(files[k] == x);
    }
    assert(files[files.len() - 1] == files.last());
}

proof fn lemma_best_step_skipped(files: Seq<MaterialFileView>, requested: Seq<Seq<char>>, prev: Seq<MaterialFileView>)
    requires
        files.len() > 0,
        best_file_per_role(files.drop_last(), requested, prev),
        !role_requested(requested, files.last().role),
    ensures
        best_file_per_role(files, requested, prev),
{
    let rest = files.drop_last();
    let last = files.len() - 1;
    lemma_prefix_members(files);
    assert forall|i: int, k: int|
        0 <= i < prev.len() && 0 <= k < files.len() && (#[trigger] files[k]).role == (#[trigger] prev[i]).role
            implies !rank_lt(file_rank_spec(files[k]), file_rank_spec(prev[i])) by {
        if k < last {
            assert(files[k] == rest[k]);
        }
    }
    assert forall|k: int| 0 <= k < files.len() && role_requested(requested, (#[trigger] files[k]).role) implies exists|
        i: int,
    | 0 <= i < prev.len() && (#[trigger] prev[i]).role == files[k].role by {
        assert(files[k] == rest[k]);
    }
    assert forall|i: int| 0 <= i < prev.len() implies files.contains(#[trigger] prev[i]) by {
        assert(rest.contains(prev[i]));
    }
}

proof fn lemma_best_step_new_role(files: Seq<MaterialFileView>, requested: Seq<Seq<char>>, prev: Seq<MaterialFileView>)
    requires
        files.len() > 0,
        best_file_per_role(files.drop_last(), requested, prev),
        role_requested(requested, files.last().role),
        role_slot(prev, files.last().role) < 0,
    ensures
        best_file_per_role(files, requested, prev.push(files.last())),
{
    let rest = files.drop_last();
    let f = files.last();
    let last = files.len() - 1;
    let chosen = prev.push(f);
    lemma_prefix_members(files);
    lemma_role_slot_absent(prev, f.role);
    assert forall|i: int, j: int| 0 <= i < j < chosen.len() implies (#[trigger] chosen[i]).role
        != (#[trigger] chosen[j]).role by {
        assert(chosen[i] == prev[i]);
        if j < prev.len() {
            assert(chosen[j] == prev[j]);
        }
    }
    assert forall|i: int| 0 <= i < chosen.len() implies files.contains(#[trigger] chosen[i]) by {
        if i < prev.len() {
            assert(chosen[i] == prev[i]);
            assert(rest.contains(prev[i]));
        }
    }
    assert forall|i: int| 0 <= i < chosen.len() implies role_requested(requested, (#[trigger] chosen[i]).role) by {
        if i < prev.len() {
            assert(chosen[i] == prev[i]);
        }
    }
    assert forall|i: int, k: int|
        0 <= i < chosen.len() && 0 <= k < files.len() && (#[trigger] files[k]).role == (#[trigger] chosen[i]).role
            implies !rank_lt(file_rank_spec(files[k]), file_rank_spec(chosen[i])) by {
        if i < prev.len() {
            assert(chosen[i] == prev[i]);
            if k < last {
                assert(files[k] == rest[k]);
            } else {
                assert(prev[i].role != f.role);
            }
        } else if k < last {
            assert(files[k] == rest[k]);
            assert(role_requested(requested, rest[k].role));
            let w = choose|w: int| 0 <= w < prev.len() && (#[trigger] prev[w]).role == rest[k].role;
            assert(prev[w].role != f.role);
        }
    }
    assert forall|k: int| 0 <= k < files.len() && role_requested(requested, (#[trigger] files[k]).role) implies exists|
        i: int,
    | 0 <= i < chosen.len() && (#[trigger] chosen[i]).role == files[k].role by {
        if k < last {
            assert(files[k] == rest[k]);
            let w = choose|w: int| 0 <= w < prev.len() && (#[trigger] prev[w]).role == rest[k].role;
            assert(chosen[w] == prev[w]);
        } else {
            assert(chosen[prev.len() as int] == f);
        }
    }
}

#[verifier::rlimit(40)]
proof fn lemma_best_step_replaced(
    files: Seq<MaterialFileView>,
    requested: Seq<Seq<char>>,
    prev: Seq<MaterialFileView>,
    slot: int,
)
    requires
        files.len() > 0,
        best_file_per_role(files.drop_last(), requested, prev),
        role_requested(requested, files.last().role),
        0 <= slot < prev.len(),
        prev[slot].role == files.last().role,
        rank_lt(file_rank_spec(files.last()), file_rank_spec(prev[slot])),
    ensures
        best_file_per_role(files, requested, prev.update(slot, files.last())),
{
    let rest = files.drop_last();
    let f = files.last();
    let last = files.len() - 1;
    let chosen = prev.update(slot, f);
    lemma_prefix_members(files);
    assert forall|i: int, j: int| 0 <= i < j < chosen.len() implies (#[trigger] chosen[i]).role
        != (#[trigger] chosen[j]).role by {
        assert(prev[i].role != prev[j].role);
    }
    assert forall|i: int| 0 <= i < chosen.len() implies files.contains(#[trigger] chosen[i]) by {
        if i != slot {
            assert(rest.contains(prev[i]));
        }
    }
    assert forall|i: int| 0 <= i < chosen.len() implies role_requested(requested, (#[trigger] chosen[i]).role) by {
        if i != slot {
            assert(chosen[i] == prev[i]);
        }
    }
    assert forall|i: int, k: int|
        0 <= i < chosen.len() && 0 <= k < files.len() && (#[trigger] files[k]).role == (#[trigger] chosen[i]).role
            implies !rank_lt(file_rank_spec(files[k]), file_rank_spec(chosen[i])) by {
        if i != slot {
            assert(chosen[i] == prev[i]);
            if k < last {
                assert(files[k] == rest[k]);
            } else {
                assert(prev[i].role != prev[slot].role);
            }
        } else if k < last {
            assert(chosen[i] == f);
            assert(files[k] == rest[k]);
            assert(!rank_lt(file_rank_spec(rest[k]), file_rank_spec(prev[slot])));
        } else {
            assert(chosen[i] == f);
        }
    }
    assert forall|k: int| 0 <= k < files.len() && role_requested(requested, (#[trigger] files[k]).role) implies exists|
        i: int,
    | 0 <= i < chosen.len() && (#[trigger] chosen[i]).role == files[k].role by {
        if k < last {
            assert(files[k] == rest[k]);
            let w = choose|w: int| 0 <= w < prev.len() && (#[trigger] prev[w]).role == rest[k].role;
            assert(chosen[w].role == prev[w].role);
        } else {
            assert(chosen[slot] == f);
        }
    }
}

proof fn lemma_best_step_kept(
    files: Seq<MaterialFileView>,
    requested: Seq<Seq<char>>,
    prev: Seq<MaterialFileView>,
    slot: int,
)
    requires
        files.len() > 0,
        best_file_per_role(files.drop_last(), requested, prev),
        0 <= slot < prev.len(),
        prev[slot].role == files.last().role,
        !rank_lt(file_rank_spec(files.last()), file_rank_spec(prev[slot])),
    ensures
        best_file_per_role(files, requested, prev),
{
    let rest = files.drop_last();
    let f = files.last();
    let last = files.len() - 1;
    lemma_prefix_members(files);
    assert forall|i: int, k: int|
        0 <= i < prev.len() && 0 <= k < files.len() && (#[trigger] files[k]).role == (#[trigger] prev[i]).role
            implies !rank_lt(file_rank_spec(files[k]), file_rank_spec(prev[i])) by {
        if k < last {
            assert(files[k] == rest[k]);
        } else if i != slot {
            assert(prev[i].role != prev[slot].role);
        }
    }
    assert forall|k: int| 0 <= k < files.len() && role_requested(requested, (#[trigger] files[k]).role) implies exists|
        i: int,
    | 0 <= i < prev.len() && (#[trigger] prev[i]).role == files[k].role by {
        if k < last {
            assert(files[k] == rest[k]);
        } else {
            assert(prev[slot].role == f.role);
        }
    }
    assert forall|i: int| 0 <= i < prev.len() implies files.contains(#[trigger] prev[i]) by {
        assert(rest.contains(prev[i]));
    }
}

proof fn lemma_best_per_role_is_best(files: Seq<MaterialFileView>, requested: Seq<Seq<char>>)
    ensures
        best_file_per_role(files, requested, best_per_role(files, requested)),
    decreases files.len(),
{
    if files.len() > 0 {
        let f = files.last();
        let prev = best_per_role(files.drop_last(), requested);
        lemma_best_per_role_is_best(files.drop_last(), requested);
        if !role_requested(requested, f.role) {
            lemma_best_step_skipped(files, requested, prev);
        } else {
            lemma_role_slot_bounds(prev, f.role);
            let slot = role_slot(prev, f.role);
            if slot < 0 {
                lemma_best_step_new_role(files, requested, prev);
            } else if rank_lt(file_rank_spec(f), file_rank_spec(prev[slot])) {
                lemma_best_step_replaced(files, requested, prev, slot);
            } else {
                lemma_best_step_kept(files, requested, prev, slot);
            }
        }
    }
}

/// The download selection keeps one file per requested role: roles do not
/// repeat, each file is a requested input file that no input file of its
/// role outranks, and every requested role of the input is present.
pub proof fn lemma_selection_is_best_per_role(
    files: Seq<MaterialFileView>,
    requested: Seq<Seq<char>>,
    result: Seq<MaterialFileView>,
)
    requires
        selected_downloads(files, requested, result),
    ensures
        best_file_per_role(files, requested, result),
{
    let best = best_per_role(files, requested);
    lemma_best_per_role_is_best(files, requested);
    let keys = role_keys(best);
    let perm = choose|perm: Seq<int>| is_stable_order(keys, perm) && result == arrange(best, perm);
    assert(result.len() == best.len());
    assert forall|i: int| 0 <= i < result.len() implies #[trigger] result[i] == best[perm[i]] by {}
    assert forall|i: int, j: int| 0 <= i < j < result.len() implies (#[trigger] result[i]).role
        != (#[trigger] result[j]).role by {
        assert(result[i] == best[perm[i]]);
        assert(result[j] == best[perm[j]]);
        if perm[i] == perm[j] {
            lemma_placed_before_irreflexive(keys, perm[i]);
        } else if perm[i] < perm[j] {
            assert(best[perm[i]].role != best[perm[j]].role);
        } else {
            assert(best[perm[j]].role != best[perm[i]].role);
        }
    }
    assert forall|i: int| 0 <= i < result.len() implies files.contains(#[trigger] result[i]) by {
        assert(result[i] == best[perm[i]]);
    }
    assert forall|i: int| 0 <= i < result.len() implies role_requested(requested, (#[trigger] result[i]).role) by {
        assert(result[i] == best[perm[i]]);
    }
    assert forall|i: int, k: int|
        0 <= i < result.len() && 0 <= k < files.len() && (#[trigger] files[k]).role == (#[trigger] result[i]).role
            implies !rank_lt(file_rank_spec(files[k]), file_rank_spec(result[i])) by {
        assert(result[i] == best[perm[i]]);
    }
    assert forall|k: int| 0 <= k < files.len() && role_requested(requested, (#[trigger] files[k]).role) implies exists|
        i: int,
    | 0 <= i < result.len() && (#[trigger] result[i]).role == files[k].role by {
        let w = choose|w: int| 0 <= w < best.len() && (#[trigger] best[w]).role == files[k].role;
        assert(lists(perm, w));
        let j = choose|j: int| 0 <= j < perm.len() && #[trigger] perm[j] == w;
        assert(result[j] == best[w]);
    }
}

/// The download selection is ordered by role rank.
pub proof fn lemma_selection_ordered_by_role_rank(
    files: Seq<MaterialFileView>,
    requested: Seq<Seq<char>>,
    result: Seq<MaterialFileView>,
)
    requires
        selected_downloads(files, requested, result),
    ensures
        forall|i: int, j: int|
            0 <= i < j < result.len() ==> role_rank_spec((#[trigger] result[i]).role) <= role_rank_spec(
                (#[trigger] result[j]).role,
            ),
{
    let best = best_per_role(files, requested);
    let keys = role_keys(best);
    let perm = choose|perm: Seq<int>| is_stable_order(keys, perm) && result == arrange(best, perm);
    assert forall|i: int, j: int| 0 <= i < j < result.len() implies role_rank_spec((#[trigger] result[i]).role)
        <= role_rank_spec((#[trigger] result[j]).role) by {
        assert(result[i] == best[perm[i]]);
        assert(result[j] == best[perm[j]]);
        assert(placed_before(keys, perm[i], perm[j]));
        assert(keys[perm[i]] == (role_rank_spec(best[perm[i]].role) as int, 0int, Seq::<char>::empty()));
        assert(keys[perm[j]] == (role_rank_spec(best[perm[j]].role) as int, 0int, Seq::<char>::empty()));
    }
}


// ---------------------------------------------------------------------------
// The Poly Haven file tree.
// ---------------------------------------------------------------------------

/// One format entry of a resolution: the fields that the file listing reads.
/// An entry without a textual `url` is not a downloadable file.
pub struct TextureFormatNode {
    pub format: String,
    pub url: Option<String>,
    pub md5: Option<String>,
    pub size: Option<u64>,
}

/// One resolution of a map; `formats` is `None` when the entry is not an object.
pub struct TextureResolutionNode {
    pub resolution: String,
    pub formats: Option<Vec<TextureFormatNode>>,
}

/// One map of the tree; `resolutions` is `None` when the entry is not an object.
pub struct TextureMapNode {
    pub map: String,
    pub resolutions: Option<Vec<TextureResolutionNode>>,
}

/// The file tree of a material, in key order; `maps` is `None` when the
/// document is not an object.
pub struct TextureTree {
    pub maps: Option<Vec<TextureMapNode>>,
}

/// Map entries that are scene bundles rather than texture maps.
pub open spec fn is_bundle_map(name: Seq<char>) -> bool {
    name == "blend"@ || name == "gltf"@ || name == "mtlx"@
}

fn bundle_map(name: &String) -> (r: bool)
    ensures
        r == is_bundle_map(name@),
{
    let n = name.as_str();
    str_equal(n, "blend") || str_equal(n, "gltf") || str_equal(n, "mtlx")
}

/// The file record listed for one format entry of `map` at `resolution`.
pub open spec fn listed_file(map: Seq<char>, resolution: Seq<char>, node: TextureFormatNode, url: Seq<char>) -> MaterialFileView {
    MaterialFileView {
        map: map,
        role: role_for_normalized(text_lower(map)),
        resolution: resolution,
        format: node.format@,
        url: url,
        md5: opt_view(node.md5),
        size: node.size,
    }
}

/// The files listed by the format entries `formats`, in order.
pub open spec fn format_files(map: Seq<char>, resolution: Seq<char>, formats: Seq<TextureFormatNode>) -> Seq<MaterialFileView>
    decreases formats.len(),
{
    if formats.len() == 0 {
        Seq::empty()
    } else {
        let prev = format_files(map, resolution, formats.drop_last());
        match formats.last().url {
            Some(u) => prev.push(listed_file(map, resolution, formats.last(), u@)),
            None => prev,
        }
    }
}

/// The files of one map at the wanted resolution.
pub open spec fn resolution_files(map: Seq<char>, wanted: Seq<char>, nodes: Seq<TextureResolutionNode>) -> Seq<MaterialFileView>
    decreases nodes.len(),
{
    if nodes.len() == 0 {
        Seq::empty()
    } else {
        let prev = resolution_files(map, wanted, nodes.drop_last());
        let node = nodes.last();
        if node.resolution@ == wanted && node.formats is Some {
            prev + format_files(map, wanted, node.formats->0@)
        } else {
            prev
        }
    }
}

/// The files of all texture maps at the wanted resolution.
pub open spec fn map_files(maps: Seq<TextureMapNode>, wanted: Seq<char>) -> Seq<MaterialFileView>
    decreases maps.len(),
{
    if maps.len() == 0 {
        Seq::empty()
    } else {
        let prev = map_files(maps.drop_last(), wanted);
        let node = maps.last();
        if !is_bundle_map(node.map@) && node.resolutions is Some {
            prev + resolution_files(node.map@, wanted, node.resolutions->0@)
        } else {
            prev
        }
    }
}

/// What `extract_texture_files` lists for a tree.
pub open spec fn extracted_files(tree: TextureTree, wanted: Seq<char>) -> Seq<MaterialFileView> {
    match tree.maps {
        Some(maps) => map_files(maps@, wanted),
        None => Seq::empty(),
    }
}

proof fn lemma_format_files_map(map: Seq<char>, resolution: Seq<char>, formats: Seq<TextureFormatNode>)
    ensures
        forall|i: int| 0 <= i < format_files(map, resolution, formats).len() ==> (#[trigger] format_files(
            map,
            resolution,
            formats,
        )[i]).map == map && format_files(map, resolution, formats)[i].resolution == resolution,
    decreases formats.len(),
{
    if formats.len() > 0 {
        lemma_format_files_map(map, resolution, formats.drop_last());
    }
}

proof fn lemma_resolution_files_map(map: Seq<char>, wanted: Seq<char>, nodes: Seq<TextureResolutionNode>)
    ensures
        forall|i: int| 0 <= i < resolution_files(map, wanted, nodes).len() ==> (#[trigger] resolution_files(
            map,
            wanted,
            nodes,
        )[i]).map == map && resolution_files(map, wanted, nodes)[i].resolution == wanted,
    decreases nodes.len(),
{
    if nodes.len() > 0 {
        let prev = nodes.drop_last();
        lemma_resolution_files_map(map, wanted, prev);
        let node = nodes.last();
        if node.resolution@ == wanted && node.formats is Some {
            let a = resolution_files(map, wanted, prev);
            let b = format_files(map, wanted, node.formats->0@);
            lemma_format_files_map(map, wanted, node.formats->0@);
            assert forall|i: int| 0 <= i < (a + b).len() implies (#[trigger] (a + b)[i]).map == map && (a + b)[i].resolution
                == wanted by {
                if i >= a.len() {
                    assert((a + b)[i] == b[i - a.len()]);
                }
            }
        }
    }
}

proof fn lemma_map_files_skip_bundles(maps: Seq<TextureMapNode>, wanted: Seq<char>)
    ensures
        forall|i: int|
            0 <= i < map_files(maps, wanted).len() ==> {
                let m = (#[trigger] map_files(maps, wanted)[i]).map;
                m != "blend"@ && m != "gltf"@ && m != "mtlx"@ && map_files(maps, wanted)[i].resolution == wanted
            },
    decreases maps.len(),
{
    if maps.len() > 0 {
        let prev = maps.drop_last();
        lemma_map_files_skip_bundles(prev, wanted);
        let node = maps.last();
        if !is_bundle_map(node.map@) && node.resolutions is Some {
            let a = map_files(prev, wanted);
            let b = resolution_files(node.map@, wanted, node.resolutions->0@);
            lemma_resolution_files_map(node.map@, wanted, node.resolutions->0@);
            assert forall|i: int| 0 <= i < (a + b).len() implies {
                let m = (#[trigger] (a + b)[i]).map;
                m != "blend"@ && m != "gltf"@ && m != "mtlx"@ && (a + b)[i].resolution == wanted
            } by {
                if i >= a.len() {
                    assert((a + b)[i] == b[i - a.len()]);
                }
            }
        }
    }
}

/// Scene bundles are never listed as texture files: no extracted file comes
/// from a map named `blend`, `gltf` or `mtlx`, and every one is at the
/// wanted resolution.
pub proof fn lemma_bundles_are_not_listed(tree: TextureTree, wanted: Seq<char>)
    ensures
        forall|i: int|
            0 <= i < extracted_files(tree, wanted).len() ==> {
                let m = (#[trigger] extracted_files(tree, wanted)[i]).map;
                m != "blend"@ && m != "gltf"@ && m != "mtlx"@ && extracted_files(tree, wanted)[i].resolution == wanted
            },
{
    if let Some(maps) = tree.maps {
        lemma_map_files_skip_bundles(maps@, wanted);
    }
}

/// A material's file listing holds no scene bundle: no listed file comes
/// from a map named `blend`, `gltf` or `mtlx`.
pub proof fn lemma_listing_has_no_bundles(tree: TextureTree, resolution: Seq<char>, files: Seq<MaterialFileView>)
    requires
        stably_sorted(extracted_files(tree, resolution), listing_keys(extracted_files(tree, resolution)), files),
    ensures
        forall|i: int|
            0 <= i < files.len() ==> {
                let m = (#[trigger] files[i]).map;
                m != "blend"@ && m != "gltf"@ && m != "mtlx"@
            },
{
    let ex = extracted_files(tree, resolution);
    let keys = listing_keys(ex);
    let key_of = |f: MaterialFileView| (role_rank_spec(f.role) as int, 0int, f.map);
    assert forall|i: int| 0 <= i < ex.len() implies #[trigger] keys[i] == key_of(ex[i]) by {}
    lemma_stably_sorted_ascends(ex, keys, files, key_of);
    lemma_bundles_are_not_listed(tree, resolution);
    assert forall|i: int| 0 <= i < files.len() implies {
        let m = (#[trigger] files[i]).map;
        m != "blend"@ && m != "gltf"@ && m != "mtlx"@
    } by {
        assert(ex.contains(files[i]));
        let w = choose|w: int| 0 <= w < ex.len() && ex[w] == files[i];
        assert(ex[w].map == files[i].map);
    }
}

/// `files` lists a file of `map` in `format` at `resolution` with `url`.
pub open spec fn has_file(
    files: Seq<MaterialFileView>,
    map: Seq<char>,
    format: Seq<char>,
    resolution: Seq<char>,
    url: Seq<char>,
) -> bool {
    exists|i: int|
        0 <= i < files.len() && (#[trigger] files[i]).map == map && files[i].format == format && files[i].resolution
            == resolution && files[i].url == url
}

proof fn lemma_has_file_concat(
    a: Seq<MaterialFileView>,
    b: Seq<MaterialFileView>,
    map: Seq<char>,
    format: Seq<char>,
    resolution: Seq<char>,
    url: Seq<char>,
)
    requires
        has_file(a, map, format, resolution, url) || has_file(b, map, format, resolution, url),
    ensures
        has_file(a + b, map, format, resolution, url),
{
    if has_file(a, map, format, resolution, url) {
        let i = choose|i: int|
            0 <= i < a.len() && (#[trigger] a[i]).map == map && a[i].format == format && a[i].resolution == resolution
                && a[i].url == url;
        assert((a + b)[i] == a[i]);
    } else {
        let i = choose|i: int|
            0 <= i < b.len() && (#[trigger] b[i]).map == map && b[i].format == format && b[i].resolution == resolution
                && b[i].url == url;
        assert((a + b)[a.len() + i] == b[i]);
    }
}

proof fn lemma_format_files_has(map: Seq<char>, resolution: Seq<char>, formats: Seq<TextureFormatNode>, c: int)
    requires
        0 <= c < formats.len(),
        formats[c].url is Some,
    ensures
        has_file(format_files(map, resolution, formats), map, formats[c].format@, resolution, formats[c].url->0@),
    decreases formats.len(),
{
    let ff = format_files(map, resolution, formats);
    let prev = format_files(map, resolution, formats.drop_last());
    if c == formats.len() - 1 {
        assert(ff[prev.len() as int] == listed_file(map, resolution, formats.last(), formats[c].url->0@));
    } else {
        assert(formats.drop_last()[c] == formats[c]);
        lemma_format_files_has(map, resolution, formats.drop_last(), c);
        let i = choose|i: int|
            0 <= i < prev.len() && (#[trigger] prev[i]).map == map && prev[i].format == formats[c].format@
                && prev[i].resolution == resolution && prev[i].url == formats[c].url->0@;
        assert(ff[i] == prev[i]);
    }
}

proof fn lemma_resolution_files_has(map: Seq<char>, wanted: Seq<char>, nodes: Seq<TextureResolutionNode>, b: int, c: int)
    requires
        0 <= b < nodes.len(),
        nodes[b].resolution@ == wanted,
        nodes[b].formats matches Some(fs) && 0 <= c < fs@.len() && fs@[c].url is Some,
    ensures
        has_file(
            resolution_files(map, wanted, nodes),
            map,
            nodes[b].formats->0@[c].format@,
            wanted,
            nodes[b].formats->0@[c].url->0@,
        ),
    decreases nodes.len(),
{
    let fs = nodes[b].formats->0@;
    let prev = nodes.drop_last();
    if b == nodes.len() - 1 {
        lemma_format_files_has(map, wanted, fs, c);
        lemma_has_file_concat(resolution_files(map, wanted, prev), format_files(map, wanted, fs), map, fs[c].format@, wanted, fs[c].url->0@);
    } else {
        assert(prev[b] == nodes[b]);
        lemma_resolution_files_has(map, wanted, prev, b, c);
        let node = nodes.last();
        if node.resolution@ == wanted && node.formats is Some {
            lemma_has_file_concat(
                resolution_files(map, wanted, prev),
                format_files(map, wanted, node.formats->0@),
                map,
                fs[c].format@,
                wanted,
                fs[c].url->0@,
            );
        }
    }
}

proof fn lemma_map_files_has(maps: Seq<TextureMapNode>, wanted: Seq<char>, a: int, b: int, c: int)
    requires
        0 <= a < maps.len(),
        maps[a].map@ != "blend"@ && maps[a].map@ != "gltf"@ && maps[a].map@ != "mtlx"@,
        maps[a].resolutions matches Some(rs) && 0 <= b < rs@.len() && rs@[b].resolution@ == wanted,
        maps[a].resolutions->0@[b].formats matches Some(fs) && 0 <= c < fs@.len() && fs@[c].url is Some,
    ensures
        has_file(
            map_files(maps, wanted),
            maps[a].map@,
            maps[a].resolutions->0@[b].formats->0@[c].format@,
            wanted,
            maps[a].resolutions->0@[b].formats->0@[c].url->0@,
        ),
    decreases maps.len(),
{
    let m = maps[a];
    let rs = m.resolutions->0@;
    let fs = rs[b].formats->0@;
    let prev = maps.drop_last();
    if a == maps.len() - 1 {
        lemma_resolution_files_has(m.map@, wanted, rs, b, c);
        lemma_has_file_concat(
            map_files(prev, wanted),
            resolution_files(m.map@, wanted, rs),
            m.map@,
            fs[c].format@,
            wanted,
            fs[c].url->0@,
        );
    } else {
        assert(prev[a] == maps[a]);
        lemma_map_files_has(prev, wanted, a, b, c);
        let node = maps.last();
        if !is_bundle_map(node.map@) && node.resolutions is Some {
            lemma_has_file_concat(
                map_files(prev, wanted),
                resolution_files(node.map@, wanted, node.resolutions->0@),
                m.map@,
                fs[c].format@,
                wanted,
                fs[c].url->0@,
            );
        }
    }
}

/// Every downloadable file is listed: a format entry with a `url`, under a
/// resolution named `wanted`, of a map that is not `blend`, `gltf` or
/// `mtlx`, gives a listed file with that map, format, resolution and url.
pub proof fn lemma_every_file_is_listed(tree: TextureTree, wanted: Seq<char>, a: int, b: int, c: int)
    requires
        tree.maps matches Some(maps) && 0 <= a < maps@.len(),
        tree.maps->0@[a].map@ != "blend"@ && tree.maps->0@[a].map@ != "gltf"@ && tree.maps->0@[a].map@ != "mtlx"@,
        tree.maps->0@[a].resolutions matches Some(rs) && 0 <= b < rs@.len() && rs@[b].resolution@ == wanted,
        tree.maps->0@[a].resolutions->0@[b].formats matches Some(fs) && 0 <= c < fs@.len() && fs@[c].url is Some,
    ensures
        ({
            let f = tree.maps->0@[a].resolutions->0@[b].formats->0@[c];
            has_file(extracted_files(tree, wanted), tree.maps->0@[a].map@, f.format@, wanted, f.url->0@)
        }),
{
    lemma_map_files_has(tree.maps->0@, wanted, a, b, c);
}

fn push_format_files(out: &mut Vec<MaterialFile>, map: &String, role: &String, resolution: &String, formats: &Vec<TextureFormatNode>)
    requires
        role@ == role_for_normalized(text_lower(map@)),
    ensures
        files_view(final(out)@) == files_view(old(out)@) + format_files(map@, resolution@, formats@),
{
    let mut i: usize = 0;
    while i < formats.len()
        invariant
            i <= formats@.len(),
            role@ == role_for_normalized(text_lower(map@)),
            files_view(out@) == files_view(old(out)@) + format_files(map@, resolution@, formats@.subrange(0, i as int)),
        decreases formats.len() - i,
    {
        let ghost before = files_view(out@);
        let node = &formats[i];
        proof {
            let p = formats@.subrange(0, i + 1);
            assert(p.drop_last() =~= formats@.subrange(0, i as int));
            assert(p.last() == *node);
        }
        match &node.url {
            Some(url) => {
                let file = MaterialFile {
                    map: map.clone(),
                    role: role.clone(),
                    resolution: resolution.clone(),
                    format: node.format.clone(),
                    url: url.clone(),
                    md5: copy_opt_string(&node.md5),
                    size: node.size,
                };
                assert(file@ == listed_file(map@, resolution@, *node, url@));
                out.push(file);
                assert(files_view(out@) =~= before.push(file@));
            },
            None => {},
        }
        i = i + 1;
    }
    assert(formats@.subrange(0, formats@.len() as int) =~= formats@);
}

fn push_resolution_files(out: &mut Vec<MaterialFile>, map: &String, wanted: &str, nodes: &Vec<TextureResolutionNode>)
    ensures
        files_view(final(out)@) == files_view(old(out)@) + resolution_files(map@, wanted@, nodes@),
{
    let role = material_role(map.as_str());
    let mut i: usize = 0;
    while i < nodes.len()
        invariant
            i <= nodes@.len(),
            role@ == role_for_normalized(text_lower(map@)),
            files_view(out@) == files_view(old(out)@) + resolution_files(map@, wanted@, nodes@.subrange(0, i as int)),
        decreases nodes.len() - i,
    {
        let ghost before = files_view(out@);
        let node = &nodes[i];
        proof {
            let p = nodes@.subrange(0, i + 1);
            assert(p.drop_last() =~= nodes@.subrange(0, i as int));
            assert(p.last() == *node);
        }
        if str_equal(node.resolution.as_str(), wanted) {
            match &node.formats {
                Some(formats) => {
                    push_format_files(out, map, &role, &node.resolution, formats);
                    assert(files_view(out@) =~= files_view(old(out)@) + resolution_files(
                        map@,
                        wanted@,
                        nodes@.subrange(0, i + 1),
                    ));
                },
                None => {},
            }
        }
        i = i + 1;
    }
    assert(nodes@.subrange(0, nodes@.len() as int) =~= nodes@);
}

/// Lists the downloadable files of every texture map at `resolution`, in
/// tree order. Bundle entries (`blend`, `gltf`, `mtlx`), entries that are not
/// objects, and format entries without a textual `url` are skipped.
pub fn extract_texture_files(tree: &TextureTree, resolution: &str) -> (r: Vec<MaterialFile>)
    ensures
        files_view(r@) == extracted_files(*tree, resolution@),
{
    let mut out: Vec<MaterialFile> = Vec::new();
    match &tree.maps {
        None => {
            assert(files_view(out@) =~= Seq::<MaterialFileView>::empty());
        },
        Some(maps) => {
            let mut i: usize = 0;
            assert(files_view(out@) =~= map_files(maps@.subrange(0, 0), resolution@));
            while i < maps.len()
                invariant
                    i <= maps@.len(),
                    files_view(out@) == map_files(maps@.subrange(0, i as int), resolution@),
                decreases maps.len() - i,
            {
                let node = &maps[i];
                proof {
                    let p = maps@.subrange(0, i + 1);
                    assert(p.drop_last() =~= maps@.subrange(0, i as int));
                    assert(p.last() == *node);
                }
                if !bundle_map(&node.map) {
                    match &node.resolutions {
                        Some(nodes) => {
                            push_resolution_files(&mut out, &node.map, resolution, nodes);
                        },
                        None => {},
                    }
                }
                i = i + 1;
            }
            assert(maps@.subrange(0, maps@.len() as int) =~= maps@);
        },
    }
    out
}


// ---------------------------------------------------------------------------
// Resolutions.
// ---------------------------------------------------------------------------

/// The resolution asked for: the trimmed request, or `2k` when there is
/// none or it is blank, lower-cased.
pub open spec fn normalized_resolution(requested: Option<Seq<char>>) -> Seq<char> {
    let picked = match requested {
        Some(v) => if trimmed(v).len() > 0 {
            trimmed(v)
        } else {
            "2k"@
        },
        None => "2k"@,
    };
    text_lower(picked)
}

/// Normalizes a requested resolution.
pub fn normalize_resolution(resolution: Option<String>) -> (r: String)
    ensures
        r@ == normalized_resolution(opt_view(resolution)),
{
    match resolution {
        Some(v) => {
            let t = trim(v.as_str());
            if t.as_str().is_empty() {
                to_lowercase("2k")
            } else {
                to_lowercase(t.as_str())
            }
        },
        None => to_lowercase("2k"),
    }
}

/// A parsed number, or zero when the text is not a `u32`.
pub open spec fn parsed_or_zero(s: Seq<char>) -> nat {
    match parse_u32_spec(s) {
        Some(v) => v as nat,
        None => 0,
    }
}

/// The pixel rank of a normalized resolution: `<n>k` counts `n * 1024`,
/// a bare number counts itself, anything unreadable counts zero.
pub open spec fn rank_of_normalized(n: Seq<char>) -> nat {
    if n.len() > 0 && n.last() == 'k' {
        parsed_or_zero(n.drop_last()) * 1024
    } else {
        parsed_or_zero(n)
    }
}

/// The rank of a resolution as written (trimmed and lower-cased first).
pub open spec fn resolution_rank_spec(resolution: Seq<char>) -> nat {
    rank_of_normalized(text_lower(trimmed(resolution)))
}

/// The rank can be computed in a `u32` (`n * 1024` does not overflow).
pub open spec fn rank_fits(resolution: Seq<char>) -> bool {
    resolution_rank_spec(resolution) <= u32::MAX
}

/// The rank of a normalized resolution, or `None` where `n * 1024`
/// overflows a `u32`.
pub fn checked_rank_of_normalized(n: &str) -> (r: Option<u32>)
    ensures
        r is Some <==> rank_of_normalized(n@) <= u32::MAX,
        r matches Some(v) ==> v as nat == rank_of_normalized(n@),
{
    let cs = chars_of(n);
    let len = cs.len();
    if len > 0 && cs[len - 1] == 'k' {
        let mut prefix = cs;
        prefix.pop();
        assert(prefix@ =~= n@.drop_last());
        let value: u32 = match parse_u32(&prefix) {
            Some(v) => v,
            None => 0,
        };
        if value <= 4194303 {
            Some(value * 1024)
        } else {
            None
        }
    } else {
        match parse_u32(&cs) {
            Some(v) => Some(v),
            None => Some(0),
        }
    }
}

/// The pixel rank of a resolution such as `2k` (2048) or `512`.
pub fn resolution_rank(resolution: &str) -> (r: u32)
    requires
        rank_fits(resolution@),
    ensures
        r as nat == resolution_rank_spec(resolution@),
{
    let t = trim(resolution);
    let n = to_lowercase(t.as_str());
    match checked_rank_of_normalized(n.as_str()) {
        Some(v) => v,
        None => 0,
    }
}

/// The rank of a resolution, or `None` where computing it overflows.
pub fn checked_resolution_rank(resolution: &str) -> (r: Option<u32>)
    ensures
        r is Some <==> rank_fits(resolution@),
        r matches Some(v) ==> v as nat == resolution_rank_spec(resolution@),
{
    let t = trim(resolution);
    let n = to_lowercase(t.as_str());
    match checked_rank_of_normalized(n.as_str()) {
        Some(_) => Some(resolution_rank(resolution)),
        None => None,
    }
}

/// The resolution names of every texture map, in tree order.
pub open spec fn resolution_names(maps: Seq<TextureMapNode>) -> Seq<Seq<char>>
    decreases maps.len(),
{
    if maps.len() == 0 {
        Seq::empty()
    } else {
        let prev = resolution_names(maps.drop_last());
        let node = maps.last();
        if !is_bundle_map(node.map@) && node.resolutions is Some {
            prev + node.resolutions->0@.map_values(|r: TextureResolutionNode| r.resolution@)
        } else {
            prev
        }
    }
}

/// The set of resolutions that some texture map offers.
pub open spec fn available_resolutions(tree: TextureTree) -> Set<Seq<char>> {
    match tree.maps {
        Some(maps) => resolution_names(maps@).to_set(),
        None => Set::empty(),
    }
}

/// Strictly increasing in text order (hence without repeats).
pub open spec fn sorted_distinct(av: Seq<Seq<char>>) -> bool {
    forall|i: int, j: int| 0 <= i < j < av.len() ==> seq_lt(#[trigger] av[i], #[trigger] av[j])
}

/// The last position, among resolutions of rank at most `limit`, holding the
/// greatest rank (what `max_by_key` returns).
pub open spec fn last_max_at_most(av: Seq<Seq<char>>, limit: nat) -> Option<int>
    decreases av.len(),
{
    if av.len() == 0 {
        None
    } else {
        let prev = last_max_at_most(av.drop_last(), limit);
        let r = resolution_rank_spec(av.last());
        if r <= limit && (prev is None || r >= resolution_rank_spec(av[prev->0])) {
            Some(av.len() - 1)
        } else {
            prev
        }
    }
}

/// The first position holding the least rank (what `min_by_key` returns).
pub open spec fn first_min(av: Seq<Seq<char>>) -> Option<int>
    decreases av.len(),
{
    if av.len() == 0 {
        None
    } else {
        let prev = first_min(av.drop_last());
        if prev is None || resolution_rank_spec(av.last()) < resolution_rank_spec(av[prev->0]) {
            Some(av.len() - 1)
        } else {
            prev
        }
    }
}

/// The resolution chosen among the sorted available ones `av`: the request
/// itself when offered, else the largest offered one not above it (the last
/// such on equal ranks), else the smallest offered one (the first such),
/// else the request.
pub open spec fn resolved_resolution(av: Seq<Seq<char>>, requested: Seq<char>) -> Seq<char> {
    if av.contains(requested) {
        requested
    } else {
        match last_max_at_most(av, resolution_rank_spec(requested)) {
            Some(j) => av[j],
            None => match first_min(av) {
                Some(j) => av[j],
                None => requested,
            },
        }
    }
}

/// Resolving does not overflow a rank computation: the document is not an
/// object or the request is offered (no rank is computed), or every rank
/// involved fits in a `u32`.
pub open spec fn resolve_fits(tree: TextureTree, requested: Seq<char>) -> bool {
    ||| tree.maps is None
    ||| available_resolutions(tree).contains(requested)
    ||| (rank_fits(requested) && forall|n: Seq<char>|
        #[trigger] available_resolutions(tree).contains(n) ==> rank_fits(n))
}

/// `r` is the resolution that the tree resolves `requested` to.
pub open spec fn resolves_to(tree: TextureTree, requested: Seq<char>, r: Seq<char>) -> bool {
    exists|av: Seq<Seq<char>>|
        sorted_distinct(av) && av.to_set() == available_resolutions(tree) && r == resolved_resolution(av, requested)
}

proof fn lemma_last_max_in_range(av: Seq<Seq<char>>, limit: nat)
    ensures
        last_max_at_most(av, limit) matches Some(j) ==> 0 <= j < av.len(),
    decreases av.len(),
{
    if av.len() > 0 {
        lemma_last_max_in_range(av.drop_last(), limit);
    }
}

proof fn lemma_first_min_in_range(av: Seq<Seq<char>>)
    ensures
        first_min(av) matches Some(j) ==> 0 <= j < av.len(),
        av.len() > 0 ==> first_min(av) is Some,
    decreases av.len(),
{
    if av.len() > 0 {
        lemma_first_min_in_range(av.drop_last());
    }
}

fn insert_sorted_distinct(av: &mut Vec<String>, name: String)
    requires
        sorted_distinct(strings_view(old(av)@)),
    ensures
        sorted_distinct(strings_view(final(av)@)),
        strings_view(final(av)@).to_set() == strings_view(old(av)@).to_set().insert(name@),
{
    let ghost before = strings_view(av@);
    let name_chars = chars_of(name.as_str());
    let mut p: usize = 0;
    while p < av.len() && chars_less(&chars_of(av[p].as_str()), &name_chars)
        invariant
            p <= av@.len(),
            before == strings_view(av@),
            name_chars@ == name@,
            forall|q: int| 0 <= q < p ==> seq_lt(#[trigger] before[q], name@),
        decreases av.len() - p,
    {
        assert(before[p as int] == av@[p as int]@);
        p = p + 1;
    }
    if p < av.len() && av[p] == name {
        assert(before.to_set().insert(name@) =~= before.to_set()) by {
            assert(before[p as int] == name@);
        }
        return;
    }
    proof {
        if p < before.len() {
            lemma_seq_lt_total(before[p as int], name@);
            assert(seq_lt(name@, before[p as int]));
        }
    }
    av.insert(p, name);
    let ghost after = strings_view(av@);
    proof {
        assert(after =~= before.insert(p as int, name@));
        assert forall|i: int, j: int| 0 <= i < j < after.len() implies seq_lt(#[trigger] after[i], #[trigger] after[j]) by {
            if i == p && j > p {
                assert(after[j] == before[j - 1]);
                if j - 1 > p {
                    assert(seq_lt(before[p as int], before[j - 1]));
                    lemma_seq_lt_transitive(name@, before[p as int], before[j - 1]);
                }
            } else if i < p && j > p {
                assert(after[j] == before[j - 1]);
            } else if i > p {
                assert(after[i] == before[i - 1]);
                assert(after[j] == before[j - 1]);
            }
        }
        assert(after.to_set() =~= before.to_set().insert(name@)) by {
            assert forall|x: Seq<char>| after.to_set().contains(x) implies before.to_set().insert(name@).contains(x) by {
                let k = choose|k: int| 0 <= k < after.len() && after[k] == x;
                if k < p {
                    assert(before[k] == x);
                } else if k > p {
                    assert(before[k - 1] == x);
                }
            }
            assert forall|x: Seq<char>| before.to_set().insert(name@).contains(x) implies after.to_set().contains(x) by {
                if x == name@ {
                    assert(after[p as int] == x);
                } else {
                    let k = choose|k: int| 0 <= k < before.len() && before[k] == x;
                    if k < p {
                        assert(after[k] == x);
                    } else {
                        assert(after[k + 1] == x);
                    }
                }
            }
        }
    }
}


/// The sorted, distinct list of resolutions that the tree offers.
fn available_resolution_list(tree: &TextureTree) -> (av: Vec<String>)
    ensures
        sorted_distinct(strings_view(av@)),
        strings_view(av@).to_set() == available_resolutions(*tree),
{
    let mut av: Vec<String> = Vec::new();
    match &tree.maps {
        None => {
            assert(strings_view(av@).to_set() =~= Set::<Seq<char>>::empty());
        },
        Some(maps) => {
            let mut i: usize = 0;
            assert(strings_view(av@).to_set() =~= resolution_names(maps@.subrange(0, 0)).to_set());
            while i < maps.len()
                invariant
                    i <= maps@.len(),
                    sorted_distinct(strings_view(av@)),
                    strings_view(av@).to_set() == resolution_names(maps@.subrange(0, i as int)).to_set(),
                decreases maps.len() - i,
            {
                let node = &maps[i];
                let ghost prev = resolution_names(maps@.subrange(0, i as int));
                proof {
                    let p = maps@.subrange(0, i + 1);
                    assert(p.drop_last() =~= maps@.subrange(0, i as int));
                    assert(p.last() == *node);
                }
                if !bundle_map(&node.map) {
                    match &node.resolutions {
                        Some(nodes) => {
                            let ghost names = nodes@.map_values(|r: TextureResolutionNode| r.resolution@);
                            let mut k: usize = 0;
                            assert(prev + names.subrange(0, 0) =~= prev);
                            while k < nodes.len()
                                invariant
                                    k <= nodes@.len(),
                                    names == nodes@.map_values(|r: TextureResolutionNode| r.resolution@),
                                    sorted_distinct(strings_view(av@)),
                                    strings_view(av@).to_set() == (prev + names.subrange(0, k as int)).to_set(),
                                decreases nodes.len() - k,
                            {
                                let ghost so_far = prev + names.subrange(0, k as int);
                                insert_sorted_distinct(&mut av, nodes[k].resolution.clone());
                                proof {
                                    so_far.lemma_push_to_set_commute(nodes@[k as int].resolution@);
                                    assert(so_far.push(nodes@[k as int].resolution@) =~= prev + names.subrange(0, k + 1));
                                }
                                k = k + 1;
                            }
                            assert(names.subrange(0, names.len() as int) =~= names);
                        },
                        None => {},
                    }
                }
                i = i + 1;
            }
            assert(maps@.subrange(0, maps@.len() as int) =~= maps@);
        },
    }
    av
}

proof fn lemma_last_max_is_max(av: Seq<Seq<char>>, limit: nat)
    ensures
        last_max_at_most(av, limit) matches Some(j) ==> 0 <= j < av.len() && resolution_rank_spec(av[j]) <= limit
            && forall|i: int|
            0 <= i < av.len() && resolution_rank_spec(#[trigger] av[i]) <= limit ==> resolution_rank_spec(av[i])
                <= resolution_rank_spec(av[j]),
        last_max_at_most(av, limit) is None ==> forall|i: int|
            0 <= i < av.len() ==> resolution_rank_spec(#[trigger] av[i]) > limit,
    decreases av.len(),
{
    if av.len() > 0 {
        let prev = av.drop_last();
        lemma_last_max_is_max(prev, limit);
        assert forall|i: int| 0 <= i < av.len() - 1 implies #[trigger] av[i] == prev[i] by {}
    }
}

proof fn lemma_first_min_is_min(av: Seq<Seq<char>>)
    ensures
        first_min(av) matches Some(j) ==> 0 <= j < av.len() && forall|i: int|
            0 <= i < av.len() ==> resolution_rank_spec(av[j]) <= resolution_rank_spec(#[trigger] av[i]),
        av.len() > 0 ==> first_min(av) is Some,
    decreases av.len(),
{
    if av.len() > 0 {
        let prev = av.drop_last();
        lemma_first_min_is_min(prev);
        assert forall|i: int| 0 <= i < av.len() - 1 implies #[trigger] av[i] == prev[i] by {}
    }
}

/// The resolved resolution is the best offered one: the request itself when
/// offered; otherwise, when something is offered, an offered resolution
/// whose rank is the greatest among those not above the request's, or, when
/// every offered rank is above it, the least offered rank.
pub proof fn lemma_resolution_is_best_offered(tree: TextureTree, requested: Seq<char>, r: Seq<char>)
    requires
        resolves_to(tree, requested, r),
    ensures
        available_resolutions(tree).contains(requested) ==> r == requested,
        !available_resolutions(tree).contains(requested) && available_resolutions(tree).len() > 0 ==> {
            &&& available_resolutions(tree).contains(r)
            &&& (exists|n: Seq<char>|
                #[trigger] available_resolutions(tree).contains(n) && resolution_rank_spec(n) <= resolution_rank_spec(
                    requested,
                )) ==> resolution_rank_spec(r) <= resolution_rank_spec(requested) && forall|n: Seq<char>|
                #[trigger] available_resolutions(tree).contains(n) && resolution_rank_spec(n) <= resolution_rank_spec(
                    requested,
                ) ==> resolution_rank_spec(n) <= resolution_rank_spec(r)
            &&& (forall|n: Seq<char>|
                #[trigger] available_resolutions(tree).contains(n) ==> resolution_rank_spec(n) > resolution_rank_spec(
                    requested,
                )) ==> forall|n: Seq<char>|
                #[trigger] available_resolutions(tree).contains(n) ==> resolution_rank_spec(r) <= resolution_rank_spec(n)
        },
{
    let av = choose|av: Seq<Seq<char>>|
        sorted_distinct(av) && av.to_set() == available_resolutions(tree) && r == resolved_resolution(av, requested);
    let limit = resolution_rank_spec(requested);
    let set = available_resolutions(tree);
    lemma_last_max_is_max(av, limit);
    lemma_first_min_is_min(av);
    assert(set.contains(requested) ==> av.contains(requested));
    if !set.contains(requested) && set.len() > 0 {
        assert(av.len() > 0) by {
            if av.len() == 0 {
                assert(av.to_set() =~= Set::<Seq<char>>::empty());
            }
        }
        assert forall|n: Seq<char>| #[trigger] set.contains(n) implies exists|i: int| 0 <= i < av.len() && av[i] == n by {
            assert(av.to_set().contains(n));
        }
        match last_max_at_most(av, limit) {
            Some(j) => {
                assert(r == av[j]);
                assert(av.to_set().contains(av[j]));
                assert forall|n: Seq<char>| #[trigger] set.contains(n) && resolution_rank_spec(n) <= limit implies resolution_rank_spec(n)
                    <= resolution_rank_spec(r) by {
                    let i = choose|i: int| 0 <= i < av.len() && av[i] == n;
                    assert(resolution_rank_spec(av[i]) <= limit);
                }
                if forall|n: Seq<char>| #[trigger] set.contains(n) ==> resolution_rank_spec(n) > limit {
                    assert(set.contains(av[j]));
                }
            },
            None => {
                let j = first_min(av)->0;
                assert(r == av[j]);
                assert(av.to_set().contains(av[j]));
                assert forall|n: Seq<char>| #[trigger] set.contains(n) implies resolution_rank_spec(r) <= resolution_rank_spec(n) by {
                    let i = choose|i: int| 0 <= i < av.len() && av[i] == n;
                    assert(resolution_rank_spec(av[j]) <= resolution_rank_spec(av[i]));
                }
                if exists|n: Seq<char>| #[trigger] set.contains(n) && resolution_rank_spec(n) <= limit {
                    let n = choose|n: Seq<char>| #[trigger] set.contains(n) && resolution_rank_spec(n) <= limit;
                    let i = choose|i: int| 0 <= i < av.len() && av[i] == n;
                    assert(resolution_rank_spec(av[i]) > limit);
                }
            },
        }
    }
}

fn list_contains(av: &Vec<String>, s: &str) -> (r: bool)
    ensures
        r == strings_view(av@).contains(s@),
{
    let mut i: usize = 0;
    while i < av.len()
        invariant
            i <= av@.len(),
            forall|j: int| 0 <= j < i ==> strings_view(av@)[j] != s@,
        decreases av.len() - i,
    {
        assert(strings_view(av@)[i as int] == av@[i as int]@);
        if str_equal(av[i].as_str(), s) {
            return true;
        }
        i = i + 1;
    }
    false
}

/// Resolves the requested resolution against what the tree offers: the
/// request itself if some texture map has it, else the largest offered
/// resolution whose rank does not exceed the request's, else the smallest
/// offered one, else the request unchanged.
pub fn resolve_texture_resolution(tree: &TextureTree, requested: &str) -> (r: String)
    requires
        resolve_fits(*tree, requested@),
    ensures
        resolves_to(*tree, requested@, r@),
{
    let av = available_resolution_list(tree);
    let ghost sv = strings_view(av@);
    if tree.maps.is_none() {
        assert(sv.to_set() =~= Set::<Seq<char>>::empty());
        assert(sv.len() == 0) by {
            if sv.len() > 0 {
                assert(sv.to_set().contains(sv[0]));
            }
        }
        let r = owned(requested);
        assert(r@ == resolved_resolution(sv, requested@));
        return r;
    }
    if list_contains(&av, requested) {
        let r = owned(requested);
        assert(r@ == resolved_resolution(sv, requested@));
        return r;
    }
    assert(!available_resolutions(*tree).contains(requested@));
    let limit = resolution_rank(requested);
    let mut best: Option<usize> = None;
    let mut best_rank: u32 = 0;
    let mut j: usize = 0;
    while j < av.len()
        invariant
            j <= av@.len(),
            sv == strings_view(av@),
            sv.to_set() == available_resolutions(*tree),
            limit as nat == resolution_rank_spec(requested@),
            forall|n: Seq<char>| #[trigger] available_resolutions(*tree).contains(n) ==> rank_fits(n),
            match best {
                Some(b) => last_max_at_most(sv.subrange(0, j as int), limit as nat) == Some(b as int)
                    && b < j && best_rank as nat == resolution_rank_spec(sv[b as int]),
                None => last_max_at_most(sv.subrange(0, j as int), limit as nat) is None,
            },
        decreases av.len() - j,
    {
        proof {
            let p = sv.subrange(0, j + 1);
            assert(p.drop_last() =~= sv.subrange(0, j as int));
            assert(p.last() == av@[j as int]@);
            assert(sv.contains(sv[j as int]));
            assert(sv.to_set().contains(sv[j as int]));
            if let Some(b) = best {
                assert(p.drop_last()[b as int] == sv[b as int]);
            }
        }
        let r = resolution_rank(av[j].as_str());
        let take = match best {
            Some(_) => r <= limit && r >= best_rank,
            None => r <= limit,
        };
        if take {
            best = Some(j);
            best_rank = r;
        }
        j = j + 1;
    }
    assert(sv.subrange(0, av@.len() as int) =~= sv);
    match best {
        Some(b) => {
            return av[b].clone();
        },
        None => {},
    }
    let mut low: Option<usize> = None;
    let mut low_rank: u32 = 0;
    let mut k: usize = 0;
    while k < av.len()
        invariant
            k <= av@.len(),
            sv == strings_view(av@),
            sv.to_set() == available_resolutions(*tree),
            forall|n: Seq<char>| #[trigger] available_resolutions(*tree).contains(n) ==> rank_fits(n),
            match low {
                Some(b) => first_min(sv.subrange(0, k as int)) == Some(b as int) && b < k
                    && low_rank as nat == resolution_rank_spec(sv[b as int]),
                None => first_min(sv.subrange(0, k as int)) is None && k == 0,
            },
        decreases av.len() - k,
    {
        proof {
            let p = sv.subrange(0, k + 1);
            assert(p.drop_last() =~= sv.subrange(0, k as int));
            assert(p.last() == av@[k as int]@);
            assert(sv.contains(sv[k as int]));
            assert(sv.to_set().contains(sv[k as int]));
            if let Some(b) = low {
                assert(p.drop_last()[b as int] == sv[b as int]);
            }
        }
        let r = resolution_rank(av[k].as_str());
        let take = match low {
            Some(_) => r < low_rank,
            None => true,
        };
        if take {
            low = Some(k);
            low_rank = r;
        }
        k = k + 1;
    }
    assert(sv.subrange(0, av@.len() as int) =~= sv);
    match low {
        Some(b) => av[b].clone(),
        None => owned(requested),
    }
}

/// Resolves like [`resolve_texture_resolution`], or returns `None` where
/// computing a rank would overflow (there the caller must fail).
pub fn checked_resolve_texture_resolution(tree: &TextureTree, requested: &str) -> (r: Option<String>)
    ensures
        r is Some <==> resolve_fits(*tree, requested@),
        r matches Some(v) ==> resolves_to(*tree, requested@, v@),
{
    let av = available_resolution_list(tree);
    let ghost sv = strings_view(av@);
    if tree.maps.is_none() || list_contains(&av, requested) {
        return Some(resolve_texture_resolution(tree, requested));
    }
    assert(!sv.to_set().contains(requested@));
    if checked_resolution_rank(requested).is_none() {
        return None;
    }
    let mut j: usize = 0;
    while j < av.len()
        invariant
            j <= av@.len(),
            sv == strings_view(av@),
            sv.to_set() == available_resolutions(*tree),
            !available_resolutions(*tree).contains(requested@),
            rank_fits(requested@),
            forall|q: int| 0 <= q < j ==> rank_fits(#[trigger] sv[q]),
        decreases av.len() - j,
    {
        assert(sv[j as int] == av@[j as int]@);
        if checked_resolution_rank(av[j].as_str()).is_none() {
            assert(sv.contains(sv[j as int]));
            assert(sv.to_set().contains(sv[j as int]));
            return None;
        }
        j = j + 1;
    }
    assert forall|n: Seq<char>| #[trigger] available_resolutions(*tree).contains(n) implies rank_fits(n) by {
        assert(sv.to_set().contains(n));
        assert(sv.contains(n));
        let q = choose|q: int| 0 <= q < sv.len() && sv[q] == n;
        assert(rank_fits(sv[q]));
    }
    Some(resolve_texture_resolution(tree, requested))
}


// ---------------------------------------------------------------------------
// The listing of a material's files.
// ---------------------------------------------------------------------------

/// The files of a material at one resolution, as listed to the front end.
pub struct PolyHavenMaterialFiles {
    pub id: String,
    pub resolution: String,
    pub files: Vec<MaterialFile>,
}

/// Sort keys that order files by role rank, then by map name.
pub open spec fn listing_keys(files: Seq<MaterialFileView>) -> Seq<KeyView> {
    files.map_values(|f: MaterialFileView| (role_rank_spec(f.role) as int, 0int, f.map))
}

fn listing_sort_keys(files: &Vec<MaterialFile>) -> (keys: Vec<SortKey>)
    ensures
        key_views(keys@) == listing_keys(files_view(files@)),
{
    let mut keys: Vec<SortKey> = Vec::new();
    let mut i: usize = 0;
    while i < files.len()
        invariant
            i <= files@.len(),
            keys@.len() == i,
            forall|j: int| 0 <= j < i ==> (#[trigger] keys@[j])@ == (role_rank_spec(files@[j].role@) as int, 0int, files@[j].map@),
        decreases files.len() - i,
    {
        let rank = role_rank(files[i].role.as_str());
        let key = SortKey { major: rank as i128, minor: 0, text: chars_of(files[i].map.as_str()) };
        keys.push(key);
        i = i + 1;
    }
    assert(key_views(keys@) =~= listing_keys(files_view(files@)));
    keys
}

/// Lists the files of material `id` from its file tree: the requested
/// resolution is normalized and resolved against what the tree offers, the
/// files at that resolution are extracted and stably sorted by role rank and
/// then map name. `None` where resolving would overflow a rank computation.
pub fn material_files_from_tree(id: String, tree: &TextureTree, resolution: Option<String>) -> (r: Option<PolyHavenMaterialFiles>)
    ensures
        r is Some <==> resolve_fits(*tree, normalized_resolution(opt_view(resolution))),
        r matches Some(listing) ==> {
            &&& listing.id@ == id@
            &&& resolves_to(*tree, normalized_resolution(opt_view(resolution)), listing.resolution@)
            &&& stably_sorted(
                extracted_files(*tree, listing.resolution@),
                listing_keys(extracted_files(*tree, listing.resolution@)),
                files_view(listing.files@),
            )
        },
{
    let requested = normalize_resolution(resolution);
    let resolved = match checked_resolve_texture_resolution(tree, requested.as_str()) {
        Some(v) => v,
        None => {
            return None;
        },
    };
    let files = extract_texture_files(tree, resolved.as_str());
    let keys = listing_sort_keys(&files);
    let ghost fv = files_view(files@);
    assert(key_views(keys@).len() == keys@.len());
    assert(listing_keys(fv).len() == files@.len());
    let (sorted, Ghost(perm)) = stable_sort_by_keys(files, &keys);
    proof {
        lemma_arrange_files_view(files@, perm);
    }
    Some(PolyHavenMaterialFiles { id, resolution: resolved, files: sorted })
}

// ---------------------------------------------------------------------------
// Local file names.
// ---------------------------------------------------------------------------

/// A character kept in a path segment: ASCII letters and digits, `-`, `_`;
/// anything else becomes `_`.
pub open spec fn sanitized_char(c: char) -> char {
    if is_ascii_alnum(c) || c == '-' || c == '_' {
        c
    } else {
        '_'
    }
}

/// A string made safe for use as one path segment.
pub open spec fn sanitized(s: Seq<char>) -> Seq<char> {
    Seq::new(s.len(), |i: int| sanitized_char(s[i]))
}

/// Sanitizing keeps the length, leaves only ASCII letters and digits, `-`
/// and `_` (so no separator or dot can remain), and changes nothing the
/// second time.
pub proof fn lemma_sanitized_is_safe(s: Seq<char>)
    ensures
        sanitized(s).len() == s.len(),
        forall|i: int|
            0 <= i < s.len() ==> is_ascii_alnum(#[trigger] sanitized(s)[i]) || sanitized(s)[i] == '-' || sanitized(s)[i]
                == '_',
        sanitized(sanitized(s)) == sanitized(s),
{
    assert(sanitized(sanitized(s)) =~= sanitized(s));
}

/// Replaces every character that is not an ASCII letter or digit, `-` or
/// `_` with `_`.
pub fn sanitize_path_segment(value: &str) -> (r: String)
    ensures
        r@ == sanitized(value@),
{
    let cs = chars_of(value);
    let mut out: Vec<char> = Vec::new();
    let mut i: usize = 0;
    while i < cs.len()
        invariant
            i <= cs@.len(),
            out@ == sanitized(cs@.subrange(0, i as int)),
        decreases cs.len() - i,
    {
        let c = cs[i];
        let kept = if ascii_alnum(c) || c == '-' || c == '_' {
            c
        } else {
            '_'
        };
        out.push(kept);
        assert(out@ =~= sanitized(cs@.subrange(0, i + 1)));
        i = i + 1;
    }
    assert(cs@.subrange(0, cs@.len() as int) =~= cs@);
    string_from_chars(&out)
}

/// The local file name of a downloaded texture:
/// `<id>_<map>_<resolution>.<format>`, each part sanitized.
pub open spec fn texture_filename_spec(id: Seq<char>, file: MaterialFileView) -> Seq<char> {
    sanitized(id) + "_"@ + sanitized(file.map) + "_"@ + sanitized(file.resolution) + "."@ + sanitized(file.format)
}

/// The local file name of a downloaded texture.
pub fn texture_filename(id: &str, file: &MaterialFile) -> (r: String)
    ensures
        r@ == texture_filename_spec(id@, file@),
{
    let mut out: Vec<char> = Vec::new();
    append_str(&mut out, sanitize_path_segment(id).as_str());
    append_str(&mut out, "_");
    append_str(&mut out, sanitize_path_segment(file.map.as_str()).as_str());
    append_str(&mut out, "_");
    append_str(&mut out, sanitize_path_segment(file.resolution.as_str()).as_str());
    append_str(&mut out, ".");
    append_str(&mut out, sanitize_path_segment(file.format.as_str()).as_str());
    string_from_chars(&out)
}

// ---------------------------------------------------------------------------
// Planning a download.
// ---------------------------------------------------------------------------

/// The message given when no file qualifies for download.
pub open spec fn no_download_message(id: Seq<char>, resolution: Seq<char>) -> Seq<char> {
    "no downloadable texture maps found for "@ + id + " at "@ + resolution
}

/// Chooses the files to download for material `id` at `resolution`:
/// [`select_download_files`] with the requested roles (none means every
/// role); an error when nothing qualifies.
pub fn plan_material_download(
    files: Vec<MaterialFile>,
    roles: Option<Vec<String>>,
    id: &str,
    resolution: &str,
) -> (r: Result<Vec<MaterialFile>, String>)
    ensures
        ({
            let requested = match roles {
                Some(v) => strings_view(v@),
                None => Seq::<Seq<char>>::empty(),
            };
            let chosen = best_per_role(files_view(files@), requested);
            &&& r is Err <==> chosen.len() == 0
            &&& r matches Ok(v) ==> selected_downloads(files_view(files@), requested, files_view(v@))
            &&& r matches Err(m) ==> m@ == no_download_message(id@, resolution@)
        }),
{
    let requested: Vec<String> = match roles {
        Some(v) => v,
        None => Vec::new(),
    };
    assert(strings_view(requested@) =~= (match roles {
        Some(v) => strings_view(v@),
        None => Seq::<Seq<char>>::empty(),
    }));
    let ghost chosen = best_per_role(files_view(files@), strings_view(requested@));
    let selected = select_download_files(files, &requested);
    proof {
        let perm = choose|perm: Seq<int>| is_stable_order(role_keys(chosen), perm) && files_view(selected@) == arrange(chosen, perm);
        assert(files_view(selected@).len() == perm.len());
    }
    if selected.len() == 0 {
        let mut out: Vec<char> = Vec::new();
        append_str(&mut out, "no downloadable texture maps found for ");
        append_str(&mut out, id);
        append_str(&mut out, " at ");
        append_str(&mut out, resolution);
        return Err(string_from_chars(&out));
    }
    Ok(selected)
}

} // verus!
