//! The Poly Haven material catalog: asset conversion, search, and categories.

use vstd::prelude::*;
use crate::materials::{copy_opt_string, opt_view, strings_view};
use crate::order::{
    arrange, is_stable_order, key_less, key_views, lemma_stably_sorted_ascends, stable_sort_by_keys, stably_sorted, KeyView,
    SortKey,
};
use crate::text::{
    append_chars, append_str, char_to_uppercase, chars_contain, chars_of, text_lower,
    seq_contains, seq_lt, str_equal, string_from_chars, to_lowercase, trim, trimmed, char_upper,
};

verus! {

/// The fields of a Poly Haven asset record that the catalog reads. `authors`
/// lists (name, role) pairs in the order the record's map yields them.
pub struct PolyHavenAsset {
    pub name: String,
    pub asset_type: u8,
    pub date_published: Option<i64>,
    pub download_count: Option<u64>,
    pub authors: Option<Vec<(String, String)>>,
    pub categories: Option<Vec<String>>,
    pub tags: Option<Vec<String>>,
    pub max_resolution: Option<Vec<u32>>,
    pub dimensions: Option<Vec<u32>>,
    pub thumbnail_url: Option<String>,
}

/// A texture material as offered by the catalog.
pub struct PolyHavenMaterial {
    pub id: String,
    pub name: String,
    pub categories: Vec<String>,
    pub tags: Vec<String>,
    pub authors: Vec<String>,
    pub max_resolution: Option<Vec<u32>>,
    pub dimensions_mm: Option<Vec<u32>>,
    pub thumbnail_url: Option<String>,
    pub download_count: u64,
    pub date_published: Option<i64>,
}

/// The mathematical value of a [`PolyHavenMaterial`].
pub struct PolyHavenMaterialView {
    pub id: Seq<char>,
    pub name: Seq<char>,
    pub categories: Seq<Seq<char>>,
    pub tags: Seq<Seq<char>>,
    pub authors: Seq<Seq<char>>,
    pub max_resolution: Option<Seq<u32>>,
    pub dimensions_mm: Option<Seq<u32>>,
    pub thumbnail_url: Option<Seq<char>>,
    pub download_count: u64,
    pub date_published: Option<i64>,
}

/// The elements of an optional list of numbers.
pub open spec fn opt_numbers(v: Option<Vec<u32>>) -> Option<Seq<u32>> {
    match v {
        Some(x) => Some(x@),
        None => None,
    }
}

impl View for PolyHavenMaterial {
    type V = PolyHavenMaterialView;

    open spec fn view(&self) -> PolyHavenMaterialView {
        PolyHavenMaterialView {
            id: self.id@,
            name: self.name@,
            categories: strings_view(self.categories@),
            tags: strings_view(self.tags@),
            authors: strings_view(self.authors@),
            max_resolution: opt_numbers(self.max_resolution),
            dimensions_mm: opt_numbers(self.dimensions_mm),
            thumbnail_url: opt_view(self.thumbnail_url),
            download_count: self.download_count,
            date_published: self.date_published,
        }
    }
}

/// The values of a sequence of materials.
pub open spec fn materials_view(v: Seq<PolyHavenMaterial>) -> Seq<PolyHavenMaterialView> {
    v.map_values(|m: PolyHavenMaterial| m@)
}

/// How an author is credited: the name, followed by the role in
/// parentheses when there is one.
pub open spec fn author_label(name: Seq<char>, role: Seq<char>) -> Seq<char> {
    if role.len() == 0 {
        name
    } else {
        name + " ("@ + role + ")"@
    }
}

/// The credits of an asset's author list, in order.
pub open spec fn author_labels(authors: Seq<(String, String)>) -> Seq<Seq<char>> {
    authors.map_values(|a: (String, String)| author_label(a.0@, a.1@))
}

/// The strings of an optional list, or nothing.
pub open spec fn strings_or_empty(v: Option<Vec<String>>) -> Seq<Seq<char>> {
    match v {
        Some(x) => strings_view(x@),
        None => Seq::empty(),
    }
}

/// The material that an asset record describes.
pub open spec fn converted_material(id: Seq<char>, asset: PolyHavenAsset) -> PolyHavenMaterialView {
    PolyHavenMaterialView {
        id: id,
        name: asset.name@,
        categories: strings_or_empty(asset.categories),
        tags: strings_or_empty(asset.tags),
        authors: match asset.authors {
            Some(a) => author_labels(a@),
            None => Seq::empty(),
        },
        max_resolution: opt_numbers(asset.max_resolution),
        dimensions_mm: opt_numbers(asset.dimensions),
        thumbnail_url: opt_view(asset.thumbnail_url),
        download_count: match asset.download_count {
            Some(c) => c,
            None => 0,
        },
        date_published: asset.date_published,
    }
}

/// An asset record is a texture (type 1).
pub open spec fn is_texture(asset: PolyHavenAsset) -> bool {
    asset.asset_type == 1
}

fn credit(name: &String, role: &String) -> (r: String)
    ensures
        r@ == author_label(name@, role@),
{
    if role.as_str().is_empty() {
        return name.clone();
    }
    let mut out: Vec<char> = Vec::new();
    append_str(&mut out, name.as_str());
    append_str(&mut out, " (");
    append_str(&mut out, role.as_str());
    append_str(&mut out, ")");
    string_from_chars(&out)
}

fn credits(authors: Vec<(String, String)>) -> (r: Vec<String>)
    ensures
        strings_view(r@) == author_labels(authors@),
{
    let mut out: Vec<String> = Vec::new();
    let mut i: usize = 0;
    while i < authors.len()
        invariant
            i <= authors@.len(),
            out@.len() == i,
            forall|j: int| 0 <= j < i ==> (#[trigger] out@[j])@ == author_label(authors@[j].0@, authors@[j].1@),
        decreases authors.len() - i,
    {
        let label = credit(&authors[i].0, &authors[i].1);
        out.push(label);
        i = i + 1;
    }
    assert(strings_view(out@) =~= author_labels(authors@));
    out
}

fn strings_or_new(v: Option<Vec<String>>) -> (r: Vec<String>)
    ensures
        strings_view(r@) == strings_or_empty(v),
{
    match v {
        Some(x) => x,
        None => {
            let e: Vec<String> = Vec::new();
            assert(strings_view(e@) =~= Seq::<Seq<char>>::empty());
            e
        },
    }
}

impl PolyHavenMaterial {
    /// The material described by asset record `asset` under key `id`, or
    /// `None` when the asset is not a texture. Missing lists become empty,
    /// a missing download count becomes zero, and each author is credited
    /// with [`author_label`].
    pub fn from_asset(id: String, asset: PolyHavenAsset) -> (r: Option<PolyHavenMaterial>)
        ensures
            r is Some <==> is_texture(asset),
            r matches Some(m) ==> m@ == converted_material(id@, asset),
    {
        if asset.asset_type != 1 {
            return None;
        }
        let ghost a = asset;
        let authors = match asset.authors {
            Some(list) => credits(list),
            None => {
                let e: Vec<String> = Vec::new();
                assert(strings_view(e@) =~= Seq::<Seq<char>>::empty());
                e
            },
        };
        let m = PolyHavenMaterial {
            id,
            name: asset.name,
            categories: strings_or_new(asset.categories),
            tags: strings_or_new(asset.tags),
            authors,
            max_resolution: asset.max_resolution,
            dimensions_mm: asset.dimensions,
            thumbnail_url: asset.thumbnail_url,
            download_count: match asset.download_count {
                Some(c) => c,
                None => 0,
            },
            date_published: asset.date_published,
        };
        assert(m@ == converted_material(id@, a));
        Some(m)
    }
}

// ---------------------------------------------------------------------------
// Category labels.
// ---------------------------------------------------------------------------

/// `c` separates segments (`/`) or, inside a segment, words (`-`, space).
pub open spec fn is_separator(segments: bool, c: char) -> bool {
    if segments {
        is_segment_separator(c)
    } else {
        is_word_separator(c)
    }
}

/// The pieces of `s` between separators, as `str::split` yields them
/// (n separators give n + 1 pieces).
pub open spec fn split_by(s: Seq<char>, segments: bool) -> Seq<Seq<char>>
    decreases s.len(),
{
    if s.len() == 0 {
        seq![Seq::empty()]
    } else {
        let prev = split_by(s.drop_last(), segments);
        if is_separator(segments, s.last()) {
            prev.push(Seq::empty())
        } else {
            prev.update(prev.len() - 1, prev.last().push(s.last()))
        }
    }
}

/// The pieces joined with `sep` between them.
pub open spec fn join_with(parts: Seq<Seq<char>>, sep: Seq<char>) -> Seq<char>
    decreases parts.len(),
{
    if parts.len() == 0 {
        Seq::empty()
    } else if parts.len() == 1 {
        parts[0]
    } else {
        join_with(parts.drop_last(), sep) + sep + parts.last()
    }
}

/// A word with its first character upper-cased.
pub open spec fn capitalized(word: Seq<char>) -> Seq<char> {
    if word.len() == 0 {
        Seq::empty()
    } else {
        char_upper(word[0]) + word.drop_first()
    }
}

/// The non-empty words among `words`, capitalized, in order.
pub open spec fn capitalized_words(words: Seq<Seq<char>>) -> Seq<Seq<char>>
    decreases words.len(),
{
    if words.len() == 0 {
        Seq::empty()
    } else {
        let prev = capitalized_words(words.drop_last());
        if words.last().len() == 0 {
            prev
        } else {
            prev.push(capitalized(words.last()))
        }
    }
}

/// Word separators inside one segment of a category id.
pub open spec fn is_word_separator(c: char) -> bool {
    c == '-' || c == ' '
}

/// Segment separator of a category id.
pub open spec fn is_segment_separator(c: char) -> bool {
    c == '/'
}

/// The label of one segment: its words capitalized and joined by spaces.
pub open spec fn segment_label(segment: Seq<char>) -> Seq<char> {
    join_with(capitalized_words(split_by(segment, false)), " "@)
}

/// The display label of a category id: `All` for `all`; otherwise each
/// `/`-separated segment is labelled and the labels are joined by ` / `.
pub open spec fn category_label_spec(id: Seq<char>) -> Seq<char> {
    if id == "all"@ {
        "All"@
    } else {
        join_with(split_by(id, true).map_values(|s: Seq<char>| segment_label(s)), " / "@)
    }
}

fn split_chars(s: &Vec<char>, segment: bool) -> (r: Vec<Vec<char>>)
    ensures
        r@.len() == split_by(s@, segment).len(),
        forall|i: int| 0 <= i < r@.len() ==> (#[trigger] r@[i])@ == split_by(s@, segment)[i],
{
    let ghost sep = segment;
    let mut parts: Vec<Vec<char>> = Vec::new();
    let mut current: Vec<char> = Vec::new();
    let mut i: usize = 0;
    assert(split_by(s@.subrange(0, 0), sep) =~= seq![Seq::<char>::empty()]);
    while i < s.len()
        invariant
            i <= s@.len(),
            sep == segment,
            parts@.len() + 1 == split_by(s@.subrange(0, i as int), sep).len(),
            forall|k: int| 0 <= k < parts@.len() ==> (#[trigger] parts@[k])@ == split_by(s@.subrange(0, i as int), sep)[k],
            current@ == split_by(s@.subrange(0, i as int), sep).last(),
        decreases s.len() - i,
    {
        let c = s[i];
        let ghost prev = split_by(s@.subrange(0, i as int), sep);
        proof {
            let p = s@.subrange(0, i + 1);
            assert(p.drop_last() =~= s@.subrange(0, i as int));
            assert(p.last() == c);
        }
        let is_sep = if segment {
            c == '/'
        } else {
            c == '-' || c == ' '
        };
        if is_sep {
            let done = current;
            parts.push(done);
            current = Vec::new();
            assert(current@ =~= Seq::<char>::empty());
        } else {
            current.push(c);
        }
        i = i + 1;
    }
    assert(s@.subrange(0, s@.len() as int) =~= s@);
    let ghost before = parts@;
    parts.push(current);
    proof {
        assert forall|k: int| 0 <= k < parts@.len() implies (#[trigger] parts@[k])@ == split_by(s@, sep)[k] by {
            if k < before.len() {
                assert(parts@[k] == before[k]);
            }
        }
    }
    parts
}

fn join_parts(parts: &Vec<Vec<char>>, sep: &str) -> (r: Vec<char>)
    ensures
        r@ == join_with(parts@.map_values(|p: Vec<char>| p@), sep@),
{
    let ghost pv = parts@.map_values(|p: Vec<char>| p@);
    let mut out: Vec<char> = Vec::new();
    let mut i: usize = 0;
    assert(pv.subrange(0, 0) =~= Seq::<Seq<char>>::empty());
    while i < parts.len()
        invariant
            i <= parts@.len(),
            pv == parts@.map_values(|p: Vec<char>| p@),
            out@ == join_with(pv.subrange(0, i as int), sep@),
        decreases parts.len() - i,
    {
        let ghost q = pv.subrange(0, i + 1);
        assert(q.drop_last() =~= pv.subrange(0, i as int));
        assert(q.last() == parts@[i as int]@);
        if i > 0 {
            append_str(&mut out, sep);
        } else {
            assert(q =~= seq![parts@[0]@]);
        }
        append_chars(&mut out, &parts[i]);
        i = i + 1;
    }
    assert(pv.subrange(0, pv.len() as int) =~= pv);
    out
}

fn capitalize(word: &Vec<char>) -> (r: Vec<char>)
    requires
        word@.len() > 0,
    ensures
        r@ == capitalized(word@),
{
    let first = char_to_uppercase(word[0]);
    let mut out = chars_of(first.as_str());
    let mut i: usize = 1;
    while i < word.len()
        invariant
            1 <= i <= word@.len(),
            out@ == char_upper(word@[0]) + word@.subrange(1, i as int),
        decreases word.len() - i,
    {
        out.push(word[i]);
        assert(out@ =~= char_upper(word@[0]) + word@.subrange(1, i + 1));
        i = i + 1;
    }
    assert(word@.subrange(1, word@.len() as int) =~= word@.drop_first());
    out
}

fn label_segment(segment: &Vec<char>) -> (r: Vec<char>)
    ensures
        r@ == segment_label(segment@),
{
    let words = split_chars(segment, false);
    let ghost wv = split_by(segment@, false);
    let mut kept: Vec<Vec<char>> = Vec::new();
    let mut i: usize = 0;
    while i < words.len()
        invariant
            i <= words@.len(),
            words@.len() == wv.len(),
            forall|k: int| 0 <= k < words@.len() ==> (#[trigger] words@[k])@ == wv[k],
            kept@.map_values(|p: Vec<char>| p@) == capitalized_words(wv.subrange(0, i as int)),
        decreases words.len() - i,
    {
        let ghost before = kept@.map_values(|p: Vec<char>| p@);
        proof {
            let p = wv.subrange(0, i + 1);
            assert(p.drop_last() =~= wv.subrange(0, i as int));
            assert(p.last() == words@[i as int]@);
        }
        if words[i].len() > 0 {
            let w = capitalize(&words[i]);
            kept.push(w);
            assert(kept@.map_values(|p: Vec<char>| p@) =~= before.push(capitalized(wv[i as int])));
        }
        i = i + 1;
    }
    assert(wv.subrange(0, wv.len() as int) =~= wv);
    join_parts(&kept, " ")
}

/// The display label of a Poly Haven category id, e.g. `Brick / Red Stone`
/// for `brick/red-stone`.
pub fn category_label(id: &str) -> (r: String)
    ensures
        r@ == category_label_spec(id@),
{
    if str_equal(id, "all") {
        return crate::text::owned("All");
    }
    let cs = chars_of(id);
    let segments = split_chars(&cs, true);
    let ghost sv = split_by(id@, true);
    let mut labels: Vec<Vec<char>> = Vec::new();
    let mut i: usize = 0;
    while i < segments.len()
        invariant
            i <= segments@.len(),
            segments@.len() == sv.len(),
            forall|k: int| 0 <= k < segments@.len() ==> (#[trigger] segments@[k])@ == sv[k],
            labels@.len() == i,
            forall|k: int| 0 <= k < i ==> (#[trigger] labels@[k])@ == segment_label(sv[k]),
        decreases segments.len() - i,
    {
        let l = label_segment(&segments[i]);
        labels.push(l);
        i = i + 1;
    }
    assert(labels@.map_values(|p: Vec<char>| p@) =~= sv.map_values(|s: Seq<char>| segment_label(s)));
    let out = join_parts(&labels, " / ");
    string_from_chars(&out)
}


// ---------------------------------------------------------------------------
// Category listing.
// ---------------------------------------------------------------------------

/// A texture category with its display label and material count.
pub struct PolyHavenCategory {
    pub id: String,
    pub name: String,
    pub count: u64,
}

/// The mathematical value of a [`PolyHavenCategory`].
pub struct PolyHavenCategoryView {
    pub id: Seq<char>,
    pub name: Seq<char>,
    pub count: u64,
}

impl View for PolyHavenCategory {
    type V = PolyHavenCategoryView;

    open spec fn view(&self) -> PolyHavenCategoryView {
        PolyHavenCategoryView { id: self.id@, name: self.name@, count: self.count }
    }
}

/// The values of a sequence of categories.
pub open spec fn categories_view(v: Seq<PolyHavenCategory>) -> Seq<PolyHavenCategoryView> {
    v.map_values(|c: PolyHavenCategory| c@)
}

/// The category entry for one (id, count) pair.
pub open spec fn category_entry(id: Seq<char>, count: u64) -> PolyHavenCategoryView {
    PolyHavenCategoryView { id: id, name: category_label_spec(id), count: count }
}

/// The category entries of (id, count) pairs, in input order.
pub open spec fn category_entries(counts: Seq<(String, u64)>) -> Seq<PolyHavenCategoryView> {
    counts.map_values(|e: (String, u64)| category_entry(e.0@, e.1))
}

/// The listing order of categories: `all` first, then by count, largest
/// first, then by label.
pub open spec fn category_keys(entries: Seq<PolyHavenCategoryView>) -> Seq<KeyView> {
    entries.map_values(|c: PolyHavenCategoryView| (if c.id == "all"@ { 0int } else { 1int }, -(c.count as int), c.name))
}

/// Builds the category listing from (id, count) pairs: each category is
/// labelled with [`category_label`], and the listing is stably sorted with
/// `all` first, then by descending count, then by label.
pub fn texture_categories_from_counts(counts: Vec<(String, u64)>) -> (r: Vec<PolyHavenCategory>)
    ensures
        stably_sorted(category_entries(counts@), category_keys(category_entries(counts@)), categories_view(r@)),
{
    let ghost entries = category_entries(counts@);
    let n = counts.len();
    let mut rest = counts;
    let mut items: Vec<PolyHavenCategory> = Vec::new();
    let mut keys: Vec<SortKey> = Vec::new();
    let mut i: usize = 0;
    while i < n
        invariant
            i <= n,
            n == entries.len(),
            entries == category_entries(counts@),
            rest@ == counts@.skip(i as int),
            items@.len() == i,
            keys@.len() == i,
            forall|j: int| 0 <= j < i ==> (#[trigger] items@[j])@ == entries[j],
            forall|j: int| 0 <= j < i ==> (#[trigger] keys@[j])@ == category_keys(entries)[j],
        decreases n - i,
    {
        assert(rest@.len() > 0);
        let (id, count) = rest.remove(0);
        assert(rest@ =~= counts@.skip(i + 1));
        let name = category_label(id.as_str());
        let is_all = str_equal(id.as_str(), "all");
        let key = SortKey {
            major: if is_all { 0 } else { 1 },
            minor: -(count as i128),
            text: chars_of(name.as_str()),
        };
        let item = PolyHavenCategory { id, name, count };
        assert(item@ == entries[i as int]);
        items.push(item);
        keys.push(key);
        i = i + 1;
    }
    let (sorted, Ghost(perm)) = stable_sort_by_keys(items, &keys);
    proof {
        assert(key_views(keys@) =~= category_keys(entries));
        assert(categories_view(items@) =~= entries);
        assert(categories_view(sorted@) =~= arrange(entries, perm));
    }
    sorted
}

// ---------------------------------------------------------------------------
// Searching the catalog.
// ---------------------------------------------------------------------------

/// Some text of `values` contains `needle` once lower-cased.
pub open spec fn any_mentions(values: Seq<Seq<char>>, needle: Seq<char>) -> bool {
    exists|i: int| 0 <= i < values.len() && seq_contains(text_lower(#[trigger] values[i]), needle)
}

/// A material matches a (lower-cased) query: every material matches an
/// empty query; otherwise the lower-cased name, id, a category, or a tag
/// must contain it.
pub open spec fn matches_query(m: PolyHavenMaterialView, needle: Seq<char>) -> bool {
    ||| needle.len() == 0
    ||| seq_contains(text_lower(m.name), needle)
    ||| seq_contains(text_lower(m.id), needle)
    ||| any_mentions(m.categories + m.tags, needle)
}

/// The texture materials of `assets` that match the query, in input order.
pub open spec fn search_candidates(assets: Seq<(String, PolyHavenAsset)>, needle: Seq<char>) -> Seq<PolyHavenMaterialView>
    decreases assets.len(),
{
    if assets.len() == 0 {
        Seq::empty()
    } else {
        let prev = search_candidates(assets.drop_last(), needle);
        let a = assets.last();
        let m = converted_material(a.0@, a.1);
        if is_texture(a.1) && matches_query(m, needle) {
            prev.push(m)
        } else {
            prev
        }
    }
}

/// How results are ordered.
pub enum SearchOrder {
    /// Most downloaded first.
    Popular,
    /// Most recently published first; undated materials last.
    Latest,
    /// By name.
    Name,
}

/// The order a sort option asks for: `latest`, `name`, or else popularity.
pub open spec fn search_order(sort: Option<Seq<char>>) -> SearchOrder {
    match sort {
        Some(s) => if s == "latest"@ {
            SearchOrder::Latest
        } else if s == "name"@ {
            SearchOrder::Name
        } else {
            SearchOrder::Popular
        },
        None => SearchOrder::Popular,
    }
}

/// The sort key of a material under an order.
pub open spec fn search_key(order: SearchOrder, m: PolyHavenMaterialView) -> KeyView {
    match order {
        SearchOrder::Latest => match m.date_published {
            Some(d) => (0int, -(d as int), Seq::empty()),
            None => (1int, 0int, Seq::empty()),
        },
        SearchOrder::Name => (0int, 0int, m.name),
        SearchOrder::Popular => (-(m.download_count as int), 0int, Seq::empty()),
    }
}

/// The sort keys of materials under an order.
pub open spec fn search_keys(order: SearchOrder, ms: Seq<PolyHavenMaterialView>) -> Seq<KeyView> {
    ms.map_values(|m: PolyHavenMaterialView| search_key(order, m))
}

/// How many results are returned: the limit (48 by default) clamped to
/// 1..=200.
pub open spec fn result_limit(limit: Option<usize>) -> int {
    let l = match limit {
        Some(v) => v as int,
        None => 48,
    };
    if l < 1 {
        1
    } else if l > 200 {
        200
    } else {
        l
    }
}

/// The lower-cased query text (empty when there is no query).
pub open spec fn query_needle(query: Option<Seq<char>>) -> Seq<char> {
    text_lower(
        match query {
            Some(q) => q,
            None => Seq::empty(),
        },
    )
}

/// How many of `n` sorted results are kept under `limit`.
pub open spec fn kept_count(limit: Option<usize>, n: int) -> int {
    if result_limit(limit) < n {
        result_limit(limit)
    } else {
        n
    }
}

/// `result` is what a search over `assets` returns: the matching texture
/// materials, stably sorted in the requested order, cut to the limit.
pub open spec fn search_results(
    assets: Seq<(String, PolyHavenAsset)>,
    query: Option<Seq<char>>,
    sort: Option<Seq<char>>,
    limit: Option<usize>,
    result: Seq<PolyHavenMaterialView>,
) -> bool {
    exists|arranged: Seq<PolyHavenMaterialView>|
        #[trigger] stably_sorted(
            search_candidates(assets, query_needle(query)),
            search_keys(search_order(sort), search_candidates(assets, query_needle(query))),
            arranged,
        ) && result == arranged.take(kept_count(limit, arranged.len() as int))
}

/// The category a catalog query is narrowed to: the trimmed category,
/// unless it is blank or `all`.
pub open spec fn category_filter_spec(category: Option<Seq<char>>) -> Option<Seq<char>> {
    match category {
        Some(c) => if trimmed(c).len() == 0 || trimmed(c) == "all"@ {
            None
        } else {
            Some(trimmed(c))
        },
        None => None,
    }
}

/// The category to ask the catalog for, if any.
pub fn category_filter(category: Option<String>) -> (r: Option<String>)
    ensures
        opt_view(r) == category_filter_spec(opt_view(category)),
{
    match category {
        None => None,
        Some(c) => {
            let t = trim(c.as_str());
            if t.as_str().is_empty() || str_equal(t.as_str(), "all") {
                None
            } else {
                Some(t)
            }
        },
    }
}

fn mentions(values: &Vec<String>, needle: &Vec<char>) -> (r: bool)
    ensures
        r == any_mentions(strings_view(values@), needle@),
{
    let mut i: usize = 0;
    while i < values.len()
        invariant
            i <= values@.len(),
            forall|j: int| 0 <= j < i ==> !seq_contains(text_lower(#[trigger] strings_view(values@)[j]), needle@),
        decreases values.len() - i,
    {
        let lowered = to_lowercase(values[i].as_str());
        assert(strings_view(values@)[i as int] == values@[i as int]@);
        if chars_contain(&chars_of(lowered.as_str()), needle) {
            return true;
        }
        i = i + 1;
    }
    false
}

fn material_matches(m: &PolyHavenMaterial, needle: &Vec<char>) -> (r: bool)
    ensures
        r == matches_query(m@, needle@),
{
    if needle.len() == 0 {
        return true;
    }
    let name = to_lowercase(m.name.as_str());
    if chars_contain(&chars_of(name.as_str()), needle) {
        return true;
    }
    let id = to_lowercase(m.id.as_str());
    if chars_contain(&chars_of(id.as_str()), needle) {
        return true;
    }
    let in_categories = mentions(&m.categories, needle);
    let in_tags = mentions(&m.tags, needle);
    proof {
        let all = m@.categories + m@.tags;
        if any_mentions(all, needle@) {
            let k = choose|k: int| 0 <= k < all.len() && seq_contains(text_lower(#[trigger] all[k]), needle@);
            if k < m@.categories.len() {
                assert(all[k] == m@.categories[k]);
            } else {
                assert(all[k] == m@.tags[k - m@.categories.len()]);
            }
        }
        if in_categories {
            let k = choose|k: int| 0 <= k < m@.categories.len() && seq_contains(text_lower(#[trigger] m@.categories[k]), needle@);
            assert(all[k] == m@.categories[k]);
        }
        if in_tags {
            let k = choose|k: int| 0 <= k < m@.tags.len() && seq_contains(text_lower(#[trigger] m@.tags[k]), needle@);
            assert(all[k + m@.categories.len()] == m@.tags[k]);
        }
    }
    in_categories || in_tags
}

fn search_sort_key(mode: u8, m: &PolyHavenMaterial) -> (k: SortKey)
    requires
        mode <= 2,
    ensures
        k@ == search_key(
            if mode == 1 {
                SearchOrder::Latest
            } else if mode == 2 {
                SearchOrder::Name
            } else {
                SearchOrder::Popular
            },
            m@,
        ),
{
    let empty: Vec<char> = Vec::new();
    assert(empty@ =~= Seq::<char>::empty());
    if mode == 1 {
        match m.date_published {
            Some(d) => SortKey { major: 0, minor: -(d as i128), text: empty },
            None => SortKey { major: 1, minor: 0, text: empty },
        }
    } else if mode == 2 {
        SortKey { major: 0, minor: 0, text: chars_of(m.name.as_str()) }
    } else {
        SortKey { major: -(m.download_count as i128), minor: 0, text: empty }
    }
}

/// Turns the asset records of a catalog query into the result list: texture
/// assets are converted with [`PolyHavenMaterial::from_asset`], those not
/// matching the lower-cased query are dropped, the rest are stably sorted
/// (`latest`: newest first; `name`: by name; otherwise most downloaded
/// first) and cut to the clamped limit.
pub fn search_materials(
    assets: Vec<(String, PolyHavenAsset)>,
    query: Option<String>,
    sort: Option<String>,
    limit: Option<usize>,
) -> (r: Vec<PolyHavenMaterial>)
    ensures
        search_results(assets@, opt_view(query), opt_view(sort), limit, materials_view(r@)),
{
    let ghost original = assets@;
    let query_text = match query {
        Some(q) => q,
        None => String::new(),
    };
    let lowered = to_lowercase(query_text.as_str());
    let needle = chars_of(lowered.as_str());
    let ghost nv = needle@;
    assert(nv == query_needle(opt_view(query)));
    let mode: u8 = match &sort {
        Some(s) => if str_equal(s.as_str(), "latest") {
            1
        } else if str_equal(s.as_str(), "name") {
            2
        } else {
            0
        },
        None => 0,
    };
    let ghost order = search_order(opt_view(sort));
    assert(order == (if mode == 1 { SearchOrder::Latest } else if mode == 2 { SearchOrder::Name } else { SearchOrder::Popular }));
    let n = assets.len();
    let mut rest = assets;
    let mut found: Vec<PolyHavenMaterial> = Vec::new();
    let mut keys: Vec<SortKey> = Vec::new();
    let mut i: usize = 0;
    while i < n
        invariant
            i <= n,
            n == original.len(),
            mode <= 2,
            needle@ == nv,
            order == (if mode == 1 { SearchOrder::Latest } else if mode == 2 { SearchOrder::Name } else { SearchOrder::Popular }),
            rest@ == original.skip(i as int),
            materials_view(found@) == search_candidates(original.subrange(0, i as int), nv),
            keys@.len() == found@.len(),
            forall|j: int| 0 <= j < keys@.len() ==> (#[trigger] keys@[j])@ == search_key(order, found@[j]@),
        decreases n - i,
    {
        assert(rest@.len() > 0);
        let (id, asset) = rest.remove(0);
        assert(rest@ =~= original.skip(i + 1));
        let ghost before = materials_view(found@);
        proof {
            let p = original.subrange(0, i + 1);
            assert(p.drop_last() =~= original.subrange(0, i as int));
            assert(p.last() == (id, asset));
        }
        match PolyHavenMaterial::from_asset(id, asset) {
            Some(m) => {
                if material_matches(&m, &needle) {
                    let k = search_sort_key(mode, &m);
                    found.push(m);
                    keys.push(k);
                    assert(materials_view(found@) =~= before.push(found@[found@.len() - 1]@));
                }
            },
            None => {},
        }
        i = i + 1;
    }
    assert(original.subrange(0, n as int) =~= original);
    let ghost fv = materials_view(found@);
    assert(key_views(keys@) =~= search_keys(order, fv));
    let (mut sorted, Ghost(perm)) = stable_sort_by_keys(found, &keys);
    let ghost sv = materials_view(sorted@);
    proof {
        assert(sv =~= arrange(fv, perm));
        assert(stably_sorted(fv, search_keys(order, fv), sv));
    }
    let wanted: usize = match limit {
        Some(v) => if v < 1 {
            1
        } else if v > 200 {
            200
        } else {
            v
        },
        None => 48,
    };
    assert(wanted as int == result_limit(limit));
    sorted.truncate(wanted);
    proof {
        assert(materials_view(sorted@) =~= sv.take(kept_count(limit, sv.len() as int)));
        assert(fv == search_candidates(original, query_needle(opt_view(query))));
        assert(stably_sorted(
            search_candidates(original, query_needle(opt_view(query))),
            search_keys(search_order(opt_view(sort)), search_candidates(original, query_needle(opt_view(query)))),
            sv,
        ));
    }
    sorted
}

// ---------------------------------------------------------------------------
// Laws of the listings.
// ---------------------------------------------------------------------------

/// The sort key of one category entry.
pub open spec fn category_key(c: PolyHavenCategoryView) -> KeyView {
    (if c.id == "all"@ { 0int } else { 1int }, -(c.count as int), c.name)
}

/// The category listing has one entry per input pair, each labelled from its
/// id; `all` comes first, then larger counts, then labels in text order.
pub proof fn lemma_category_listing_order(counts: Seq<(String, u64)>, result: Seq<PolyHavenCategoryView>)
    requires
        stably_sorted(category_entries(counts), category_keys(category_entries(counts)), result),
    ensures
        result.len() == counts.len(),
        forall|i: int| 0 <= i < result.len() ==> category_entries(counts).contains(#[trigger] result[i]),
        forall|k: int| 0 <= k < counts.len() ==> result.contains(#[trigger] category_entries(counts)[k]),
        forall|i: int, j: int|
            0 <= i < j < result.len() && (#[trigger] result[j]).id == "all"@ ==> (#[trigger] result[i]).id == "all"@,
        forall|i: int, j: int|
            0 <= i < j < result.len() && (#[trigger] result[i]).id != "all"@ && (#[trigger] result[j]).id != "all"@
                ==> result[i].count >= result[j].count,
        forall|i: int, j: int|
            0 <= i < j < result.len() && ((#[trigger] result[i]).id == "all"@) == ((#[trigger] result[j]).id == "all"@)
                && result[i].count == result[j].count ==> !seq_lt(result[j].name, result[i].name),
{
    let entries = category_entries(counts);
    let keys = category_keys(entries);
    assert forall|i: int| 0 <= i < entries.len() implies #[trigger] keys[i] == category_key(entries[i]) by {}
    lemma_stably_sorted_ascends(entries, keys, result, |c: PolyHavenCategoryView| category_key(c));
    assert forall|i: int, j: int| 0 <= i < j < result.len() implies !key_less(
        category_key(#[trigger] result[j]),
        category_key(#[trigger] result[i]),
    ) by {
        assert(!key_less(
            (|c: PolyHavenCategoryView| category_key(c))(result[j]),
            (|c: PolyHavenCategoryView| category_key(c))(result[i]),
        ));
    }
}

proof fn lemma_candidates_match(assets: Seq<(String, PolyHavenAsset)>, needle: Seq<char>)
    ensures
        forall|i: int|
            0 <= i < search_candidates(assets, needle).len() ==> matches_query(
                #[trigger] search_candidates(assets, needle)[i],
                needle,
            ) && exists|k: int|
                0 <= k < assets.len() && is_texture(assets[k].1) && converted_material(assets[k].0@, assets[k].1)
                    == search_candidates(assets, needle)[i],
    decreases assets.len(),
{
    if assets.len() > 0 {
        let prev = assets.drop_last();
        lemma_candidates_match(prev, needle);
        let c = search_candidates(assets, needle);
        let pc = search_candidates(prev, needle);
        assert forall|i: int| 0 <= i < c.len() implies matches_query(#[trigger] c[i], needle) && exists|k: int|
            0 <= k < assets.len() && is_texture(assets[k].1) && converted_material(assets[k].0@, assets[k].1) == c[i] by {
            if i < pc.len() {
                assert(c[i] == pc[i]);
                let k = choose|k: int|
                    0 <= k < prev.len() && is_texture(prev[k].1) && converted_material(prev[k].0@, prev[k].1) == pc[i];
                assert(assets[k] == prev[k]);
            } else {
                let k = assets.len() - 1;
                assert(assets[k] == assets.last());
            }
        }
    }
}

/// A search returns at most the clamped limit of materials, each converted
/// from a texture asset of the input and matching the query, in the
/// requested order (no later result sorts strictly before an earlier one).
pub proof fn lemma_search_results_law(
    assets: Seq<(String, PolyHavenAsset)>,
    query: Option<Seq<char>>,
    sort: Option<Seq<char>>,
    limit: Option<usize>,
    result: Seq<PolyHavenMaterialView>,
)
    requires
        search_results(assets, query, sort, limit, result),
    ensures
        result.len() <= result_limit(limit),
        forall|i: int| 0 <= i < result.len() ==> matches_query(#[trigger] result[i], query_needle(query)),
        forall|i: int|
            0 <= i < result.len() ==> exists|k: int|
                0 <= k < assets.len() && is_texture(assets[k].1) && converted_material(assets[k].0@, assets[k].1)
                    == #[trigger] result[i],
        forall|i: int, j: int|
            0 <= i < j < result.len() ==> !key_less(
                search_key(search_order(sort), #[trigger] result[j]),
                search_key(search_order(sort), #[trigger] result[i]),
            ),
{
    let needle = query_needle(query);
    let order = search_order(sort);
    let cands = search_candidates(assets, needle);
    let keys = search_keys(order, cands);
    let arranged = choose|arranged: Seq<PolyHavenMaterialView>|
        #[trigger] stably_sorted(cands, keys, arranged) && result == arranged.take(
            kept_count(limit, arranged.len() as int),
        );
    let key_of = |m: PolyHavenMaterialView| search_key(order, m);
    assert forall|i: int| 0 <= i < cands.len() implies #[trigger] keys[i] == key_of(cands[i]) by {}
    lemma_stably_sorted_ascends(cands, keys, arranged, key_of);
    lemma_candidates_match(assets, needle);
    assert forall|i: int| 0 <= i < result.len() implies matches_query(#[trigger] result[i], needle) && exists|k: int|
        0 <= k < assets.len() && is_texture(assets[k].1) && converted_material(assets[k].0@, assets[k].1)
            == result[i] by {
        assert(result[i] == arranged[i]);
        assert(cands.contains(arranged[i]));
        let w = choose|w: int| 0 <= w < cands.len() && cands[w] == arranged[i];
        assert(matches_query(cands[w], needle));
    }
    assert forall|i: int, j: int| 0 <= i < j < result.len() implies !key_less(
        search_key(order, #[trigger] result[j]),
        search_key(order, #[trigger] result[i]),
    ) by {
        assert(result[i] == arranged[i]);
        assert(result[j] == arranged[j]);
        assert(!key_less(key_of(arranged[j]), key_of(arranged[i])));
    }
}

/// Some string of an optional list, lower-cased, contains `needle`.
pub open spec fn some_lowered_contains(v: Option<Vec<String>>, needle: Seq<char>) -> bool {
    match v {
        Some(x) => exists|i: int| 0 <= i < x@.len() && seq_contains(text_lower(#[trigger] x@[i]@), needle),
        None => false,
    }
}

proof fn lemma_candidates_grow(assets: Seq<(String, PolyHavenAsset)>, needle: Seq<char>, k: int)
    requires
        0 <= k < assets.len(),
        search_candidates(assets.subrange(0, k + 1), needle).contains(converted_material(assets[k].0@, assets[k].1)),
    ensures
        search_candidates(assets, needle).contains(converted_material(assets[k].0@, assets[k].1)),
    decreases assets.len() - k,
{
    let m = converted_material(assets[k].0@, assets[k].1);
    if k + 1 == assets.len() {
        assert(assets.subrange(0, k + 1) =~= assets);
    } else {
        let prev = assets.drop_last();
        assert(prev.subrange(0, k + 1) =~= assets.subrange(0, k + 1));
        assert(prev[k] == assets[k]);
        lemma_candidates_grow(prev, needle, k);
        let pc = search_candidates(prev, needle);
        let c = search_candidates(assets, needle);
        let w = choose|w: int| 0 <= w < pc.len() && pc[w] == m;
        assert(c[w] == pc[w]);
    }
}

/// Search ignores case: a texture asset is a candidate of a query when the
/// query is empty, or when its name, its id, one of its categories or one of
/// its tags, lower-cased, contains the lower-cased query.
pub proof fn lemma_search_matches_ignoring_case(assets: Seq<(String, PolyHavenAsset)>, query: Option<Seq<char>>, k: int)
    requires
        0 <= k < assets.len(),
        assets[k].1.asset_type == 1,
        ({
            let needle = text_lower(
                match query {
                    Some(q) => q,
                    None => Seq::<char>::empty(),
                },
            );
            ||| needle.len() == 0
            ||| seq_contains(text_lower(assets[k].1.name@), needle)
            ||| seq_contains(text_lower(assets[k].0@), needle)
            ||| some_lowered_contains(assets[k].1.categories, needle)
            ||| some_lowered_contains(assets[k].1.tags, needle)
        }),
    ensures
        search_candidates(assets, query_needle(query)).contains(converted_material(assets[k].0@, assets[k].1)),
{
    let needle = query_needle(query);
    let a = assets[k].1;
    let m = converted_material(assets[k].0@, a);
    let all = m.categories + m.tags;
    if some_lowered_contains(a.categories, needle) {
        let x = a.categories->0;
        let i = choose|i: int| 0 <= i < x@.len() && seq_contains(text_lower(#[trigger] x@[i]@), needle);
        assert(all[i] == m.categories[i]);
        assert(any_mentions(all, needle));
    }
    if some_lowered_contains(a.tags, needle) {
        let x = a.tags->0;
        let i = choose|i: int| 0 <= i < x@.len() && seq_contains(text_lower(#[trigger] x@[i]@), needle);
        assert(all[m.categories.len() + i] == m.tags[i]);
        assert(any_mentions(all, needle));
    }
    assert(matches_query(m, needle));
    let pre = assets.subrange(0, k + 1);
    assert(pre.drop_last() =~= assets.subrange(0, k));
    assert(pre.last() == assets[k]);
    let c = search_candidates(pre, needle);
    assert(c.last() == m);
    assert(c.contains(m));
    lemma_candidates_grow(assets, needle, k);
}

/// When the candidates of a query fit within the limit, every texture
/// asset that matches the query, ignoring case, is in the results.
pub proof fn lemma_matching_assets_are_returned(
    assets: Seq<(String, PolyHavenAsset)>,
    query: Option<Seq<char>>,
    sort: Option<Seq<char>>,
    limit: Option<usize>,
    result: Seq<PolyHavenMaterialView>,
    k: int,
)
    requires
        search_results(assets, query, sort, limit, result),
        search_candidates(assets, query_needle(query)).len() <= result_limit(limit),
        0 <= k < assets.len(),
        assets[k].1.asset_type == 1,
        ({
            let needle = text_lower(
                match query {
                    Some(q) => q,
                    None => Seq::<char>::empty(),
                },
            );
            ||| needle.len() == 0
            ||| seq_contains(text_lower(assets[k].1.name@), needle)
            ||| seq_contains(text_lower(assets[k].0@), needle)
            ||| some_lowered_contains(assets[k].1.categories, needle)
            ||| some_lowered_contains(assets[k].1.tags, needle)
        }),
    ensures
        result.contains(converted_material(assets[k].0@, assets[k].1)),
{
    let needle = query_needle(query);
    let order = search_order(sort);
    let cands = search_candidates(assets, needle);
    let keys = search_keys(order, cands);
    lemma_search_matches_ignoring_case(assets, query, k);
    let arranged = choose|arranged: Seq<PolyHavenMaterialView>|
        #[trigger] stably_sorted(cands, keys, arranged) && result == arranged.take(
            kept_count(limit, arranged.len() as int),
        );
    let key_of = |m: PolyHavenMaterialView| search_key(order, m);
    assert forall|i: int| 0 <= i < cands.len() implies #[trigger] keys[i] == key_of(cands[i]) by {}
    lemma_stably_sorted_ascends(cands, keys, arranged, key_of);
    assert(result =~= arranged);
    let m = converted_material(assets[k].0@, assets[k].1);
    let w = choose|w: int| 0 <= w < cands.len() && cands[w] == m;
    assert(arranged.contains(cands[w]));
}

/// A search returns as many results as there are candidates, up to the
/// limit: 48 by default, raised to 1 and capped at 200.
pub proof fn lemma_search_result_count(
    assets: Seq<(String, PolyHavenAsset)>,
    query: Option<Seq<char>>,
    sort: Option<Seq<char>>,
    limit: Option<usize>,
    result: Seq<PolyHavenMaterialView>,
)
    requires
        search_results(assets, query, sort, limit, result),
    ensures
        ({
            let wanted: int = match limit {
                None => 48,
                Some(v) => if v < 1 {
                    1
                } else if v > 200 {
                    200
                } else {
                    v as int
                },
            };
            let n = search_candidates(assets, query_needle(query)).len() as int;
            result.len() == if n < wanted { n } else { wanted }
        }),
{
    let needle = query_needle(query);
    let order = search_order(sort);
    let cands = search_candidates(assets, needle);
    let keys = search_keys(order, cands);
    let arranged = choose|arranged: Seq<PolyHavenMaterialView>|
        #[trigger] stably_sorted(cands, keys, arranged) && result == arranged.take(
            kept_count(limit, arranged.len() as int),
        );
    let key_of = |m: PolyHavenMaterialView| search_key(order, m);
    assert forall|i: int| 0 <= i < cands.len() implies #[trigger] keys[i] == key_of(cands[i]) by {}
    lemma_stably_sorted_ascends(cands, keys, arranged, key_of);
}

} // verus!
