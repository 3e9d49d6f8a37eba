//! The navigation tree: an ordered hierarchy of directory and file nodes
//! built from the path index and the metadata store, and its renderer.

use vstd::prelude::*;

use crate::index::PathIndex;
use crate::links::{rewrite_link_to_relative, spec_rewrite};
use crate::metadata::{spec_default_metadata, MetadataStore, PageMetadata};
use crate::paths::{
    normalize_pieces, seg_ext_is, seg_stem, spec_ext, spec_has_ext, spec_split,
    spec_stem, split_path,
};
use crate::text::{
    lemma_str_lt_connected, lemma_str_lt_irrefl, lemma_str_lt_trans, lower_of, lowercase,
    spec_ends_with,
    spec_starts_with, spec_str_lt, str_ends_with, str_eq, str_lt, str_starts_with, str_to_string,
};

verus! {

/// An element of the site navigation: a document leaf or a directory with
/// ordered children.
pub enum NavItem {
    File { rel_path: String, name: String, is_current: bool },
    Directory { rel_path: String, name: String, children: Vec<(String, NavItem)> },
}

impl NavItem {
    /// The children of a directory node.
    pub fn get_children_mut(&mut self) -> (r: Option<&mut Vec<(String, NavItem)>>)
        ensures
            match *old(self) {
                NavItem::Directory { .. } => r is Some,
                NavItem::File { .. } => r is None && *final(self) == *old(self),
            },
    {
        match self {
            NavItem::Directory { children, .. } => Some(children),
            _ => None,
        }
    }
}

/// Children keys strictly ascend.
pub open spec fn nav_children_sorted(children: Seq<(String, NavItem)>) -> bool {
    forall|a: int, b: int|
        0 <= a < b < children.len() ==> spec_str_lt(
            (#[trigger] children[a]).0@,
            (#[trigger] children[b]).0@,
        )
}

/// A well-formed tree: every directory's children are strictly sorted by key.
pub open spec fn nav_wf(item: NavItem) -> bool
    decreases item,
{
    match item {
        NavItem::File { .. } => true,
        NavItem::Directory { children, .. } => {
            &&& nav_children_sorted(children@)
            &&& forall|i: int| 0 <= i < children@.len() ==> nav_wf((#[trigger] children@[i]).1)
        },
    }
}

/// Whether a leaf for the document `p` stands somewhere in the tree.
pub open spec fn tree_has_leaf(item: NavItem, p: Seq<char>) -> bool
    decreases item,
{
    match item {
        NavItem::File { rel_path, .. } => rel_path@ == p,
        NavItem::Directory { children, .. } => exists|i: int|
            0 <= i < children@.len() && tree_has_leaf((#[trigger] children@[i]).1, p),
    }
}


/// The abstract form of a navigation node: the same data with the children as
/// a key-indexed map.
pub enum GNav {
    File { path: Seq<char>, name: Seq<char>, cur: bool },
    Dir { path: Seq<char>, name: Seq<char>, kids: Map<Seq<char>, GNav> },
}

/// The abstract form of a children list: its key-indexed map, read from
/// position `i` on (the first entry with a key wins, which on the strictly
/// sorted lists of well-formed trees never matters).
pub open spec fn kids_map_from(children: Vec<(String, NavItem)>, i: int) -> Map<Seq<char>, GNav>
    decreases children, children@.len() - i,
{
    if i < 0 || i >= children@.len() {
        Map::empty()
    } else {
        kids_map_from(children, i + 1).insert(
            (children@[i]).0@,
            nav_view((children@[i]).1),
        )
    }
}

/// The abstract form of a navigation node.
pub open spec fn nav_view(item: NavItem) -> GNav
    decreases item,
{
    match item {
        NavItem::File { rel_path, name, is_current } => GNav::File {
            path: rel_path@,
            name: name@,
            cur: is_current,
        },
        NavItem::Directory { rel_path, name, children } => GNav::Dir {
            path: rel_path@,
            name: name@,
            kids: kids_map_from(children, 0),
        },
    }
}

/// Whether some child subtree holds a leaf for `p`.
pub open spec fn children_have_leaf(children: Seq<(String, NavItem)>, p: Seq<char>) -> bool {
    exists|i: int| 0 <= i < children.len() && tree_has_leaf((#[trigger] children[i]).1, p)
}

/// Sorted children whose subtrees are all well-formed.
pub open spec fn children_wf(children: Seq<(String, NavItem)>) -> bool {
    &&& nav_children_sorted(children)
    &&& forall|i: int| 0 <= i < children.len() ==> nav_wf((#[trigger] children[i]).1)
}


/// Equal entries from `i` on give equal maps from `i` on.
proof fn lemma_kids_eq_from(a: Vec<(String, NavItem)>, b: Vec<(String, NavItem)>, i: int)
    requires
        a@.len() == b@.len(),
        forall|j: int| i <= j < a@.len() ==> a@[j] == b@[j],
    ensures
        kids_map_from(a, i) == kids_map_from(b, i),
    decreases a@.len() - i,
{
    if 0 <= i && i < a@.len() {
        lemma_kids_eq_from(a, b, i + 1);
    }
}

/// Entries past an insertion point shift by one place.
proof fn lemma_kids_shift(a: Vec<(String, NavItem)>, b: Vec<(String, NavItem)>, pos: int, i: int)
    requires
        0 <= pos <= a@.len(),
        b@ == a@.insert(pos, b@[pos]),
        pos < i <= b@.len(),
    ensures
        kids_map_from(b, i) == kids_map_from(a, i - 1),
    decreases b@.len() - i,
{
    a@.insert_ensures(pos, b@[pos]);
    if i == b@.len() {
    } else {
        lemma_kids_shift(a, b, pos, i + 1);
        assert(b@[i] == a@[i - 1]);
    }
}

/// Inserting an entry whose key does not occur earlier adds exactly that key
/// to the map.
proof fn lemma_kids_insert_at(
    a: Vec<(String, NavItem)>,
    b: Vec<(String, NavItem)>,
    pos: int,
    i: int,
)
    requires
        0 <= i <= pos <= a@.len(),
        b@ == a@.insert(pos, b@[pos]),
        forall|j: int| i <= j < pos ==> (#[trigger] a@[j]).0@ != b@[pos].0@,
    ensures
        kids_map_from(b, i) == kids_map_from(a, i).insert(b@[pos].0@, nav_view(b@[pos].1)),
    decreases pos - i,
{
    if i == pos {
        lemma_kids_shift(a, b, pos, pos + 1);
    } else {
        lemma_kids_insert_at(a, b, pos, i + 1);
        assert(b@[i] == a@[i]);
        assert(kids_map_from(a, i + 1).insert(b@[pos].0@, nav_view(b@[pos].1)).insert(
            a@[i].0@,
            nav_view(a@[i].1),
        ) =~= kids_map_from(a, i + 1).insert(a@[i].0@, nav_view(a@[i].1)).insert(
            b@[pos].0@,
            nav_view(b@[pos].1),
        ));
    }
}

/// Replacing the entry that holds a key overwrites that key in the map,
/// provided the key does not occur earlier.
proof fn lemma_kids_update_at(
    a: Vec<(String, NavItem)>,
    b: Vec<(String, NavItem)>,
    pos: int,
    i: int,
)
    requires
        0 <= i <= pos < a@.len(),
        b@ == a@.update(pos, b@[pos]),
        a@[pos].0@ == b@[pos].0@,
        forall|j: int| i <= j < pos ==> (#[trigger] a@[j]).0@ != b@[pos].0@,
    ensures
        kids_map_from(b, i) == kids_map_from(a, i).insert(b@[pos].0@, nav_view(b@[pos].1)),
    decreases pos - i,
{
    if i == pos {
        lemma_kids_eq_from(a, b, pos + 1);
        assert(kids_map_from(a, pos + 1).insert(a@[pos].0@, nav_view(a@[pos].1)).insert(
            b@[pos].0@,
            nav_view(b@[pos].1),
        ) =~= kids_map_from(a, pos + 1).insert(b@[pos].0@, nav_view(b@[pos].1)));
    } else {
        lemma_kids_update_at(a, b, pos, i + 1);
        assert(b@[i] == a@[i]);
        assert(kids_map_from(a, i + 1).insert(b@[pos].0@, nav_view(b@[pos].1)).insert(
            a@[i].0@,
            nav_view(a@[i].1),
        ) =~= kids_map_from(a, i + 1).insert(a@[i].0@, nav_view(a@[i].1)).insert(
            b@[pos].0@,
            nav_view(b@[pos].1),
        ));
    }
}

/// Entries past a removal point shift one place down.
proof fn lemma_kids_shift_rm(
    a: Vec<(String, NavItem)>,
    b: Vec<(String, NavItem)>,
    pos: int,
    i: int,
)
    requires
        0 <= pos < a@.len(),
        b@ == a@.remove(pos),
        pos <= i <= b@.len(),
    ensures
        kids_map_from(b, i) == kids_map_from(a, i + 1),
    decreases b@.len() - i,
{
    a@.remove_ensures(pos);
    if i == b@.len() {
    } else {
        lemma_kids_shift_rm(a, b, pos, i + 1);
        assert(b@[i] == a@[i + 1]);
    }
}

/// A key occurring nowhere from `i` on is absent from the map.
proof fn lemma_kids_key_absent(a: Vec<(String, NavItem)>, i: int, k: Seq<char>)
    requires
        forall|j: int| i <= j < a@.len() ==> (#[trigger] a@[j]).0@ != k,
    ensures
        !kids_map_from(a, i).contains_key(k),
    decreases a@.len() - i,
{
    if 0 <= i && i < a@.len() {
        lemma_kids_key_absent(a, i + 1, k);
    }
}

/// The first entry holding a key from `i` on gives the map's value at it.
proof fn lemma_kids_lookup(a: Vec<(String, NavItem)>, i: int, j: int)
    requires
        0 <= i <= j < a@.len(),
        forall|l: int| i <= l < j ==> (#[trigger] a@[l]).0@ != a@[j].0@,
    ensures
        kids_map_from(a, i).contains_key(a@[j].0@),
        kids_map_from(a, i)[a@[j].0@] == nav_view(a@[j].1),
    decreases j - i,
{
    if i < j {
        lemma_kids_lookup(a, i + 1, j);
    }
}

/// Removing the first entry that holds a key removes that key from the map,
/// provided the key occurs nowhere else.
proof fn lemma_kids_remove_at(
    a: Vec<(String, NavItem)>,
    b: Vec<(String, NavItem)>,
    pos: int,
    i: int,
)
    requires
        0 <= i <= pos < a@.len(),
        b@ == a@.remove(pos),
        forall|j: int|
            0 <= j < a@.len() && j != pos ==> (#[trigger] a@[j]).0@ != a@[pos].0@,
    ensures
        kids_map_from(b, i) == kids_map_from(a, i).remove(a@[pos].0@),
    decreases pos - i,
{
    let k = a@[pos].0@;
    if i == pos {
        lemma_kids_shift_rm(a, b, pos, pos);
        assert(kids_map_from(a, pos) == kids_map_from(a, pos + 1).insert(k, nav_view(a@[pos].1)));
        assert(kids_map_from(b, pos) == kids_map_from(a, pos + 1));
        assert(forall|j: int| pos + 1 <= j < a@.len() ==> (#[trigger] a@[j]).0@ != k);
        lemma_kids_key_absent(a, pos + 1, k);
        assert(kids_map_from(a, pos + 1).insert(k, nav_view(a@[pos].1)).remove(k)
            =~= kids_map_from(a, pos + 1));
    } else {
        lemma_kids_remove_at(a, b, pos, i + 1);
        assert(b@[i] == a@[i]);
        assert(a@[i].0@ != k);
        assert(kids_map_from(a, i + 1).remove(k).insert(a@[i].0@, nav_view(a@[i].1))
            =~= kids_map_from(a, i + 1).insert(a@[i].0@, nav_view(a@[i].1)).remove(k));
    }
}

/// In a strictly sorted children list no two entries share a key.
proof fn lemma_sorted_keys_distinct(children: Vec<(String, NavItem)>)
    requires
        nav_children_sorted(children@),
    ensures
        forall|a: int, b: int|
            0 <= a < children@.len() && 0 <= b < children@.len() && a != b ==> (
            #[trigger] children@[a]).0@ != (#[trigger] children@[b]).0@,
{
    assert forall|a: int, b: int|
        0 <= a < children@.len() && 0 <= b < children@.len() && a != b implies (
    #[trigger] children@[a]).0@ != (#[trigger] children@[b]).0@ by {
        if children@[a].0@ == children@[b].0@ {
            if a < b {
                assert(spec_str_lt(children@[a].0@, children@[b].0@));
            } else {
                assert(spec_str_lt(children@[b].0@, children@[a].0@));
            }
            lemma_str_lt_irrefl(children@[a].0@);
        }
    }
}

/// `p` lies at or under the directory `d`.
pub open spec fn spec_path_under(p: Seq<char>, d: Seq<char>) -> bool {
    p == d || spec_starts_with(p, d + seq!['/'])
}

/// The metadata of a path, or the all-absent record when none was stored.
pub open spec fn spec_meta_of(store: Map<Seq<char>, PageMetadata>, p: Seq<char>) -> PageMetadata {
    if store.contains_key(p) {
        store[p]
    } else {
        spec_default_metadata()
    }
}

/// The path with its file name mapped to the generated `.html` name.
pub open spec fn spec_html_path(p: Seq<char>) -> Seq<char> {
    let segs = spec_split(p);
    crate::paths::spec_join(segs.update(segs.len() - 1, spec_stem(segs.last()) + ".html"@))
}

/// Maps a path's file name to its `.html` form.
pub fn path_with_html_ext(p: &str) -> (r: String)
    ensures
        r@ == spec_html_path(p@),
{
    let mut segs = split_path(p);
    let ghost sv = segs.deep_view();
    let n = segs.len();
    let mut newseg = seg_stem(segs[n - 1].as_str());
    newseg.append(".html");
    proof {
        assert(sv.last() == segs[n - 1]@);
    }
    segs.pop();
    segs.push(newseg);
    proof {
        assert(segs.deep_view() =~= sv.update(sv.len() - 1, spec_stem(sv.last()) + ".html"@));
    }
    crate::paths::join_path(&segs)
}

/// `p` lies under a directory whose own `index.md` is marked
/// `exclude_from_nav`.
pub open spec fn spec_under_excluded(
    p: Seq<char>,
    index: Seq<Seq<char>>,
    store: Map<Seq<char>, PageMetadata>,
) -> bool {
    exists|i: int|
        0 <= i < index.len() && {
            let q = #[trigger] index[i];
            &&& spec_ends_with(q, "/index.md"@)
            &&& spec_meta_of(store, q).exclude_from_nav == Some(true)
            &&& spec_path_under(p, q.take(q.len() - "/index.md"@.len()))
        }
}

/// Whether `p` lies under an excluded directory.
pub fn under_excluded_dir(p: &str, index: &PathIndex, store: &MetadataStore) -> (r: bool)
    ensures
        r == spec_under_excluded(p@, index@, store@),
{
    let n = index.len();
    let mut i: usize = 0;
    while i < n
        invariant
            n == index@.len(),
            i <= n,
            forall|j: int|
                0 <= j < i ==> !({
                    let q = #[trigger] index@[j];
                    &&& spec_ends_with(q, "/index.md"@)
                    &&& spec_meta_of(store@, q).exclude_from_nav == Some(true)
                    &&& spec_path_under(p@, q.take(q.len() - "/index.md"@.len()))
                }),
        decreases n - i,
    {
        let q = index.get(i);
        if str_ends_with(q.as_str(), "/index.md") {
            proof {
                reveal_strlit("/index.md");
                assert("/index.md"@.len() == 9);
            }
            let qn = q.unicode_len();
            let excluded = match store.get(q.as_str()) {
                Some(m) => match m.exclude_from_nav {
                    Some(b) => b,
                    None => false,
                },
                None => false,
            };
            if excluded {
                let d = q.as_str().substring_char(0, qn - 9);
                proof {
                    assert(d@ =~= q@.take(q@.len() - "/index.md"@.len()));
                }
                if str_eq(p, d) {
                    return true;
                }
                let mut dpre = str_to_string(d);
                dpre.append("/");
                proof {
                    reveal_strlit("/");
                    assert(dpre@ =~= d@ + seq!['/']);
                }
                if str_starts_with(p, dpre.as_str()) {
                    return true;
                }
            }
        }
        i = i + 1;
    }
    false
}

/// A path stays out of the navigation when its metadata excludes it, it lies
/// under an excluded directory, it is a non-root `index.md`, a reserved asset
/// (template, favicon, stylesheet, script, generated HTML/XML/JSON), or not a
/// markdown document at all.
pub open spec fn spec_should_skip(
    p: Seq<char>,
    meta: PageMetadata,
    index: Seq<Seq<char>>,
    store: Map<Seq<char>, PageMetadata>,
) -> bool {
    let segs = spec_split(p);
    let file_name = segs.last();
    ||| meta.exclude_from_nav == Some(true)
    ||| spec_under_excluded(p, index, store)
    ||| (file_name == "index.md"@ && segs.len() > 1)
    ||| file_name == "favicon.ico"@
    ||| file_name == "template.html"@
    ||| (spec_has_ext(file_name) && (spec_ext(file_name) == "css"@ || spec_ext(file_name)
        == "js"@ || spec_ext(file_name) == "html"@ || spec_ext(file_name) == "xml"@ || spec_ext(
        file_name,
    ) == "json"@))
    ||| !(spec_has_ext(file_name) && spec_ext(file_name) == "md"@)
}

/// Decides whether a path is kept out of the navigation.
pub fn should_skip_path(p: &str, meta: &PageMetadata, index: &PathIndex, store: &MetadataStore)
    -> (r: bool)
    ensures
        r == spec_should_skip(p@, *meta, index@, store@),
{
    match meta.exclude_from_nav {
        Some(true) => { return true; },
        _ => {},
    }
    if under_excluded_dir(p, index, store) {
        return true;
    }
    let segs = split_path(p);
    let n = segs.len();
    let file_name = &segs[n - 1];
    proof {
        assert(segs.deep_view().last() == segs[n - 1]@);
    }
    if str_eq(file_name.as_str(), "index.md") && n > 1 {
        return true;
    }
    if str_eq(file_name.as_str(), "favicon.ico") || str_eq(file_name.as_str(), "template.html") {
        return true;
    }
    if seg_ext_is(file_name.as_str(), "css") || seg_ext_is(file_name.as_str(), "js") || seg_ext_is(
        file_name.as_str(),
        "html",
    ) || seg_ext_is(file_name.as_str(), "xml") || seg_ext_is(file_name.as_str(), "json") {
        return true;
    }
    if !seg_ext_is(file_name.as_str(), "md") {
        return true;
    }
    false
}

/// The display name of a document in the navigation: its `nav_title`
/// override, else its file name's stem.
pub open spec fn spec_nav_name(p: Seq<char>, meta: PageMetadata) -> Seq<char> {
    match meta.nav_title {
        Some(t) => t@,
        None => spec_stem(spec_split(p).last()),
    }
}

/// The sort text: the explicit `sort_key` override, else the display name.
pub open spec fn spec_nav_sort(p: Seq<char>, meta: PageMetadata) -> Seq<char> {
    match meta.sort_key {
        Some(s) => s@,
        None => spec_nav_name(p, meta),
    }
}

/// The composite insertion key: the lowercased sort text, `--`, and the raw
/// path as a stable tie-breaker.
pub open spec fn spec_nav_key(p: Seq<char>, meta: PageMetadata) -> Seq<char> {
    lower_of(spec_nav_sort(p, meta)) + "--"@ + p
}

/// The display name and insertion key of a document; nothing for a path
/// without segments.
pub fn create_nav_item_data(p: &str, meta: &PageMetadata) -> (r: Option<(String, String)>)
    ensures
        match r {
            Some(d) => crate::paths::spec_segments_of(p@).len() > 0 && d.0@ == spec_nav_name(
                p@,
                *meta,
            ) && d.1@ == spec_nav_key(p@, *meta),
            None => crate::paths::spec_segments_of(p@).len() == 0,
        },
{
    let segs = normalize_pieces(split_path(p));
    if segs.len() == 0 {
        return None;
    }
    let name: String = match &meta.nav_title {
        Some(t) => t.clone(),
        None => {
            let raw = split_path(p);
            let ghost rv = raw.deep_view();
            let m = raw.len();
            proof {
                assert(rv.last() == raw[m - 1]@);
            }
            seg_stem(raw[m - 1].as_str())
        },
    };
    let sort: String = match &meta.sort_key {
        Some(s) => s.clone(),
        None => name.clone(),
    };
    let mut key = lowercase(sort.as_str());
    key.append("--");
    key.append(p);
    proof {
        assert(key@ =~= lower_of(spec_nav_sort(p@, *meta)) + "--"@ + p@);
    }
    Some((name, key))
}

/// Inserts `(key, item)` into sorted children, replacing an entry with an
/// equal key; every leaf of the result was already there or belongs to the
/// new item.
fn children_insert(children: Vec<(String, NavItem)>, key: String, item: NavItem) -> (r: Vec<
    (String, NavItem),
>)
    requires
        children_wf(children@),
        nav_wf(item),
    ensures
        children_wf(r@),
        forall|p: Seq<char>|
            children_have_leaf(r@, p) ==> children_have_leaf(children@, p) || tree_has_leaf(
                item,
                p,
            ),
        kids_map_from(r, 0) == kids_map_from(children, 0).insert(key@, nav_view(item)),
        exists|j: int| 0 <= j < r@.len() && (#[trigger] r@[j]).0@ == key@ && r@[j].1 == item,
{
    let ghost c0 = children;
    let ghost itemg = item;
    let ghost cv = children@;
    let n = children.len();
    let mut pos: usize = 0;
    while pos < n && str_lt(children[pos].0.as_str(), key.as_str())
        invariant
            n == children@.len(),
            pos <= n,
            children_wf(children@),
            forall|i: int| 0 <= i < pos ==> spec_str_lt((#[trigger] children@[i]).0@, key@),
        decreases n - pos,
    {
        pos = pos + 1;
    }
    let ghost kv = key@;
    let mut v = children;
    if pos < n && str_eq(v[pos].0.as_str(), key.as_str()) {
        let _replaced = v.remove(pos);
        v.insert(pos, (key, item));
        proof {
            assert(v@ =~= cv.update(pos as int, v@[pos as int]));
            assert(v@[pos as int].0@ == cv[pos as int].0@);
            assert(nav_children_sorted(v@)) by {
                assert forall|a: int, b: int| 0 <= a < b < v@.len() implies spec_str_lt(
                    (#[trigger] v@[a]).0@,
                    (#[trigger] v@[b]).0@,
                ) by {
                    assert(spec_str_lt(cv[a].0@, cv[b].0@));
                }
            }
            assert forall|p: Seq<char>| children_have_leaf(v@, p) implies children_have_leaf(
                cv,
                p,
            ) || tree_has_leaf(itemg, p) by {
                let i = choose|i: int| 0 <= i < v@.len() && tree_has_leaf(v@[i].1, p);
                if i != pos {
                    assert(tree_has_leaf(cv[i].1, p));
                }
            }
            assert(v@[pos as int].0@ == kv && v@[pos as int].1 == itemg);
            assert forall|j: int| 0 <= j < pos implies (#[trigger] cv[j]).0@ != kv by {
                if cv[j].0@ == kv {
                    lemma_str_lt_irrefl(kv);
                }
            }
            lemma_kids_update_at(c0, v, pos as int, 0);
        }
        v
    } else {
        proof {
            if pos < n {
                assert(!spec_str_lt(cv[pos as int].0@, kv));
                assert(cv[pos as int].0@ != kv);
                lemma_str_lt_connected(cv[pos as int].0@, kv);
            }
        }
        v.insert(pos, (key, item));
        proof {
            assert(v@ =~= cv.insert(pos as int, v@[pos as int]));
            assert(v@[pos as int].0@ == kv);
            assert(nav_children_sorted(v@)) by {
                assert forall|a: int, b: int| 0 <= a < b < v@.len() implies spec_str_lt(
                    (#[trigger] v@[a]).0@,
                    (#[trigger] v@[b]).0@,
                ) by {
                    if a < pos && b == pos {
                        assert(v@[a].0@ == cv[a].0@);
                    } else if a < pos && b > pos {
                        assert(v@[a].0@ == cv[a].0@ && v@[b].0@ == cv[b - 1].0@);
                        assert(spec_str_lt(cv[a].0@, cv[b - 1].0@)) by {
                            if a < b - 1 {
                            } else {
                                assert(a == b - 1);
                                assert(spec_str_lt(cv[a].0@, kv));
                                assert(false) by {
                                    assert(a < pos && a == b - 1 && b > pos);
                                }
                            }
                        }
                    } else if a == pos && b > pos {
                        assert(v@[b].0@ == cv[b - 1].0@);
                        assert(spec_str_lt(kv, cv[pos as int].0@));
                        if b - 1 > pos {
                            assert(spec_str_lt(cv[pos as int].0@, cv[b - 1].0@));
                            lemma_str_lt_trans(kv, cv[pos as int].0@, cv[b - 1].0@);
                        }
                    } else if a > pos {
                        assert(v@[a].0@ == cv[a - 1].0@ && v@[b].0@ == cv[b - 1].0@);
                        assert(spec_str_lt(cv[a - 1].0@, cv[b - 1].0@));
                    } else {
                        assert(a < pos && b < pos);
                        assert(v@[a].0@ == cv[a].0@ && v@[b].0@ == cv[b].0@);
                        assert(spec_str_lt(cv[a].0@, cv[b].0@));
                    }
                }
            }
            assert forall|p: Seq<char>| children_have_leaf(v@, p) implies children_have_leaf(
                cv,
                p,
            ) || tree_has_leaf(itemg, p) by {
                let i = choose|i: int| 0 <= i < v@.len() && tree_has_leaf(v@[i].1, p);
                if i < pos {
                    assert(tree_has_leaf(cv[i].1, p));
                } else if i > pos {
                    assert(tree_has_leaf(cv[i - 1].1, p));
                }
            }
            assert(v@[pos as int].0@ == kv && v@[pos as int].1 == itemg);
            assert forall|j: int| 0 <= j < pos implies (#[trigger] cv[j]).0@ != kv by {
                if cv[j].0@ == kv {
                    lemma_str_lt_irrefl(kv);
                }
            }
            lemma_kids_insert_at(c0, v, pos as int, 0);
        }
        v
    }
}

/// Finds the first entry with exactly the given key.
fn children_find(children: &Vec<(String, NavItem)>, key: &str) -> (r: Option<usize>)
    ensures
        match r {
            Some(j) => j < children@.len() && children@[j as int].0@ == key@ && forall|l: int|
                0 <= l < j ==> (#[trigger] children@[l]).0@ != key@,
            None => forall|l: int|
                0 <= l < children@.len() ==> (#[trigger] children@[l]).0@ != key@,
        },
{
    let n = children.len();
    let mut i: usize = 0;
    while i < n
        invariant
            n == children@.len(),
            i <= n,
            forall|l: int| 0 <= l < i ==> (#[trigger] children@[l]).0@ != key@,
        decreases n - i,
    {
        if str_eq(children[i].0.as_str(), key) {
            return Some(i);
        }
        i = i + 1;
    }
    None
}


/// The relative path of a child directory under `base`.
pub open spec fn spec_child_path(base: Seq<char>, comp: Seq<char>) -> Seq<char> {
    if base.len() == 0 {
        comp
    } else {
        base + seq!['/'] + comp
    }
}

/// A directory's display name: the `nav_title` of its own `index.md`, else
/// the directory's component name.
pub open spec fn spec_dir_display(
    store: Map<Seq<char>, PageMetadata>,
    ixpath: Seq<char>,
    comp: Seq<char>,
) -> Seq<char> {
    match spec_meta_of(store, ixpath).nav_title {
        Some(t) => t@,
        None => comp,
    }
}

/// A directory's sort text: the explicit `sort_key` of its own `index.md`,
/// else its display name.
pub open spec fn spec_dir_sort(
    store: Map<Seq<char>, PageMetadata>,
    ixpath: Seq<char>,
    dname: Seq<char>,
) -> Seq<char> {
    match spec_meta_of(store, ixpath).sort_key {
        Some(t) => t@,
        None => dname,
    }
}

/// A directory's composite insertion key.
pub open spec fn spec_dir_key(
    store: Map<Seq<char>, PageMetadata>,
    dirpath: Seq<char>,
    comp: Seq<char>,
) -> Seq<char> {
    let ixpath = dirpath + "/index.md"@;
    lower_of(spec_dir_sort(store, ixpath, spec_dir_display(store, ixpath, comp))) + "--"@
        + dirpath
}

/// The abstract insertion of one leaf along its directory chain: a directory
/// node is entered at its composite key when one stands there (created fresh
/// otherwise, also over a non-directory entry), and the leaf lands under its
/// own key at the end; an entry already holding a key is replaced.
pub open spec fn spec_insert_path(
    m: Map<Seq<char>, GNav>,
    dirs: Seq<Seq<char>>,
    d: int,
    base: Seq<char>,
    store: Map<Seq<char>, PageMetadata>,
    leaf_key: Seq<char>,
    leaf: GNav,
) -> Map<Seq<char>, GNav>
    decreases dirs.len() - d,
{
    if d < 0 || d >= dirs.len() {
        m.insert(leaf_key, leaf)
    } else {
        let dirpath = spec_child_path(base, dirs[d]);
        let ixpath = dirpath + "/index.md"@;
        let dname = spec_dir_display(store, ixpath, dirs[d]);
        let dkey = spec_dir_key(store, dirpath, dirs[d]);
        let sub: Map<Seq<char>, GNav> = if m.contains_key(dkey) && m[dkey] is Dir {
            m[dkey]->Dir_kids
        } else {
            Map::empty()
        };
        m.insert(
            dkey,
            GNav::Dir {
                path: dirpath,
                name: dname,
                kids: spec_insert_path(sub, dirs, d + 1, dirpath, store, leaf_key, leaf),
            },
        )
    }
}

/// Walks the directory components `dirs[d..]`, creating directory nodes on 
/// demand, and attaches the leaf at the end; the children change exactly as
/// `spec_insert_path` says, and the attached leaf stands in the result.
fn insert_path_rec(
    children: Vec<(String, NavItem)>,
    dirs: &Vec<String>,
    d: usize,
    base: String,
    store: &MetadataStore,
    leaf_key: String,
    leaf: NavItem,
    Ghost(leaf_path): Ghost<Seq<char>>,
) -> (r: Vec<(String, NavItem)>)
    requires
        d <= dirs@.len(),
        children_wf(children@),
        nav_wf(leaf),
        tree_has_leaf(leaf, leaf_path),
        forall|p: Seq<char>| tree_has_leaf(leaf, p) ==> p == leaf_path,
    ensures
        children_wf(r@),
        forall|p: Seq<char>|
            children_have_leaf(r@, p) ==> children_have_leaf(children@, p) || p == leaf_path,
        children_have_leaf(r@, leaf_path),
        kids_map_from(r, 0) == spec_insert_path(
            kids_map_from(children, 0),
            dirs.deep_view(),
            d as int,
            base@,
            store@,
            leaf_key@,
            nav_view(leaf),
        ),
    decreases dirs@.len() - d,
{
    let ghost c0 = children;
    let ghost leafg = leaf;
    if d == dirs.len() {
        let r = children_insert(children, leaf_key, leaf);
        proof {
            assert forall|p: Seq<char>| children_have_leaf(r@, p) implies children_have_leaf(
                c0@,
                p,
            ) || p == leaf_path by {
                if !children_have_leaf(c0@, p) {
                    assert(tree_has_leaf(leafg, p));
                }
            }
            let j = choose|j: int|
                0 <= j < r@.len() && (#[trigger] r@[j]).0@ == leaf_key@ && r@[j].1 == leafg;
            assert(tree_has_leaf(r@[j].1, leaf_path));
        }
        return r;
    }
    let dir_name = &dirs[d];
    let dirpath: String = if base.as_str().is_empty() {
        str_to_string(dir_name.as_str())
    } else {
        let mut t = str_to_string(base.as_str());
        t.append("/");
        t.append(dir_name.as_str());
        t
    };
    proof {
        reveal_strlit("/");
        assert("/"@ =~= seq!['/']);
        assert(dirs.deep_view()[d as int] == dirs@[d as int]@);
        assert(dirpath@ =~= spec_child_path(base@, dirs.deep_view()[d as int]));
    }
    let mut ixpath = str_to_string(dirpath.as_str());
    ixpath.append("/index.md");
    proof {
        assert(ixpath@ =~= dirpath@ + "/index.md"@);
    }
    let dname: String = match store.get(ixpath.as_str()) {
        Some(m) => match &m.nav_title {
            Some(t) => t.clone(),
            None => str_to_string(dir_name.as_str()),
        },
        None => str_to_string(dir_name.as_str()),
    };
    let dsort: String = match store.get(ixpath.as_str()) {
        Some(m) => match &m.sort_key {
            Some(t) => t.clone(),
            None => str_to_string(dname.as_str()),
        },
        None => str_to_string(dname.as_str()),
    };
    let mut dkey = lowercase(dsort.as_str());
    dkey.append("--");
    dkey.append(dirpath.as_str());
    let ghost dirs_v = dirs.deep_view();
    let ghost dirpath_g = dirpath@;
    let ghost dname_g = spec_dir_display(store@, ixpath@, dirs_v[d as int]);
    let ghost dkey_g = spec_dir_key(store@, dirpath_g, dirs_v[d as int]);
    proof {
        assert(dname@ == dname_g);
        assert(dsort@ == spec_dir_sort(store@, ixpath@, dname_g));
        assert(dkey@ =~= dkey_g);
    }
    let found = children_find(&children, dkey.as_str());
    match found {
        Some(j) => {
            proof {
                lemma_sorted_keys_distinct(c0);
                lemma_kids_lookup(c0, 0, j as int);
            }
            let mut v = children;
            let entry = v.remove(j);
            proof {
                assert forall|p: Seq<char>| children_have_leaf(v@, p) implies children_have_leaf(
                    c0@,
                    p,
                ) by {
                    let i = choose|i: int| 0 <= i < v@.len() && tree_has_leaf(v@[i].1, p);
                    if i < j {
                        assert(tree_has_leaf(c0@[i].1, p));
                    } else {
                        assert(tree_has_leaf(c0@[i + 1].1, p));
                    }
                }
                assert(children_wf(v@)) by {
                    assert forall|a: int, b: int| 0 <= a < b < v@.len() implies spec_str_lt(
                        (#[trigger] v@[a]).0@,
                        (#[trigger] v@[b]).0@,
                    ) by {
                        let aa = if a < j {
                            a
                        } else {
                            a + 1
                        };
                        let bb = if b < j {
                            b
                        } else {
                            b + 1
                        };
                        assert(v@[a].0@ == c0@[aa].0@ && v@[b].0@ == c0@[bb].0@);
                        assert(spec_str_lt(c0@[aa].0@, c0@[bb].0@));
                    }
                    assert(forall|i: int| 0 <= i < v@.len() ==> nav_wf((#[trigger] v@[i]).1)) by {
                        assert forall|i: int| 0 <= i < v@.len() implies nav_wf(
                            (#[trigger] v@[i]).1,
                        ) by {
                            if i < j {
                                assert(v@[i].1 == c0@[i].1);
                            } else {
                                assert(v@[i].1 == c0@[i + 1].1);
                            }
                        }
                    }
                }
                assert(nav_wf(entry.1) && forall|p: Seq<char>|
                    tree_has_leaf(entry.1, p) ==> children_have_leaf(c0@, p)) by {
                    assert(entry.1 == c0@[j as int].1);
                }
                lemma_kids_remove_at(c0, v, j as int, 0);
                assert(kids_map_from(c0, 0).contains_key(dkey_g) && kids_map_from(c0, 0)[dkey_g]
                    == nav_view(entry.1));
            }
            match entry {
                (k, NavItem::Directory { rel_path: _, name: _, children: sub }) => {
                    let ghost sub0 = sub;
                    let sub2 = insert_path_rec(
                        sub,
                        dirs,
                        d + 1,
                        str_to_string(dirpath.as_str()),
                        store,
                        leaf_key,
                        leaf,
                        Ghost(leaf_path),
                    );
                    let node = NavItem::Directory {
                        rel_path: dirpath,
                        name: dname,
                        children: sub2,
                    };
                    proof {
                        assert(nav_wf(node));
                        assert(nav_view(node) == GNav::Dir {
                            path: dirpath_g,
                            name: dname_g,
                            kids: spec_insert_path(
                                kids_map_from(sub0, 0),
                                dirs_v,
                                d + 1,
                                dirpath_g,
                                store@,
                                leaf_key@,
                                nav_view(leafg),
                            ),
                        });
                        assert forall|p: Seq<char>| tree_has_leaf(node, p) implies
                            children_have_leaf(c0@, p) || p == leaf_path by {
                            assert(children_have_leaf(sub2@, p));
                        }
                        assert(tree_has_leaf(node, leaf_path)) by {
                            let i = choose|i: int|
                                0 <= i < sub2@.len() && tree_has_leaf(
                                    (#[trigger] sub2@[i]).1,
                                    leaf_path,
                                );
                            assert(tree_has_leaf(node->Directory_children@[i].1, leaf_path));
                        }
                    }
                    let ghost nodeg = node;
                    let r = children_insert(v, k, node);
                    proof {
                        assert forall|p: Seq<char>| children_have_leaf(r@, p) implies
                            children_have_leaf(c0@, p) || p == leaf_path by {
                            if !children_have_leaf(c0@, p) && p != leaf_path {
                                assert(children_have_leaf(v@, p) || tree_has_leaf(nodeg, p));
                            }
                        }
                        let j2 = choose|j2: int|
                            0 <= j2 < r@.len() && (#[trigger] r@[j2]).0@ == k@ && r@[j2].1
                                == nodeg;
                        assert(tree_has_leaf(r@[j2].1, leaf_path));
                        assert(kids_map_from(r, 0) =~= kids_map_from(c0, 0).insert(
                            dkey_g,
                            nav_view(nodeg),
                        ));
                    }
                    r
                },
                (k, _other) => {
                    let empty_children: Vec<(String, NavItem)> = Vec::new();
                    proof {
                        assert(kids_map_from(empty_children, 0) =~= Map::<Seq<char>, GNav>::empty());
                        assert(!(nav_view(_other) is Dir));
                    }
                    let sub2 = insert_path_rec(
                        empty_children,
                        dirs,
                        d + 1,
                        str_to_string(dirpath.as_str()),
                        store,
                        leaf_key,
                        leaf,
                        Ghost(leaf_path),
                    );
                    let node = NavItem::Directory {
                        rel_path: dirpath,
                        name: dname,
                        children: sub2,
                    };
                    proof {
                        assert(nav_wf(node));
                        assert forall|p: Seq<char>| tree_has_leaf(node, p) implies p
                            == leaf_path by {
                            assert(children_have_leaf(sub2@, p));
                            assert(children_have_leaf(Seq::<(String, NavItem)>::empty(), p) || p
                                == leaf_path);
                        }
                        assert(tree_has_leaf(node, leaf_path)) by {
                            let i = choose|i: int|
                                0 <= i < sub2@.len() && tree_has_leaf(
                                    (#[trigger] sub2@[i]).1,
                                    leaf_path,
                                );
                            assert(tree_has_leaf(node->Directory_children@[i].1, leaf_path));
                        }
                    }
                    let ghost nodeg = node;
                    let r = children_insert(v, k, node);
                    proof {
                        assert forall|p: Seq<char>| children_have_leaf(r@, p) implies
                            children_have_leaf(c0@, p) || p == leaf_path by {
                            if !children_have_leaf(c0@, p) && p != leaf_path {
                                assert(children_have_leaf(v@, p) || tree_has_leaf(nodeg, p));
                            }
                        }
                        let j2 = choose|j2: int|
                            0 <= j2 < r@.len() && (#[trigger] r@[j2]).0@ == k@ && r@[j2].1
                                == nodeg;
                        assert(tree_has_leaf(r@[j2].1, leaf_path));
                        assert(kids_map_from(r, 0) =~= kids_map_from(c0, 0).insert(
                            dkey_g,
                            nav_view(nodeg),
                        ));
                    }
                    r
                },
            }
        },
        None => {
            proof {
                lemma_kids_key_absent(c0, 0, dkey_g);
            }
            let empty_children: Vec<(String, NavItem)> = Vec::new();
            proof {
                assert(kids_map_from(empty_children, 0) =~= Map::<Seq<char>, GNav>::empty());
            }
            let sub2 = insert_path_rec(
                empty_children,
                dirs,
                d + 1,
                str_to_string(dirpath.as_str()),
                store,
                leaf_key,
                leaf,
                Ghost(leaf_path),
            );
            let node = NavItem::Directory { rel_path: dirpath, name: dname, children: sub2 };
            proof {
                assert(nav_wf(node));
                assert forall|p: Seq<char>| tree_has_leaf(node, p) implies p == leaf_path by {
                    assert(children_have_leaf(sub2@, p));
                    assert(children_have_leaf(Seq::<(String, NavItem)>::empty(), p) || p
                        == leaf_path);
                }
                assert(tree_has_leaf(node, leaf_path)) by {
                    let i = choose|i: int|
                        0 <= i < sub2@.len() && tree_has_leaf((#[trigger] sub2@[i]).1, leaf_path);
                    assert(tree_has_leaf(node->Directory_children@[i].1, leaf_path));
                }
            }
            let ghost nodeg = node;
            let r = children_insert(children, dkey, node);
            proof {
                assert forall|p: Seq<char>| children_have_leaf(r@, p) implies children_have_leaf(
                    c0@,
                    p,
                ) || p == leaf_path by {
                    if !children_have_leaf(c0@, p) && p != leaf_path {
                        assert(tree_has_leaf(nodeg, p));
                    }
                }
                let j2 = choose|j2: int|
                    0 <= j2 < r@.len() && (#[trigger] r@[j2]).0@ == dkey_g && r@[j2].1 == nodeg;
                assert(tree_has_leaf(r@[j2].1, leaf_path));
            }
            r
        },
    }
}


/// Insertion into a sorted list: the new path lands before the first entry
/// that does not precede it.
pub open spec fn spec_sort_insert(v: Seq<Seq<char>>, x: Seq<char>) -> Seq<Seq<char>>
    decreases v.len(),
{
    if v.len() == 0 {
        seq![x]
    } else if spec_str_lt(v[0], x) {
        seq![v[0]] + spec_sort_insert(v.drop_first(), x)
    } else {
        seq![x] + v
    }
}

/// The index paths in the canonical build order: each in turn inserted into a
/// sorted list.
pub open spec fn spec_sorted_paths(index: Seq<Seq<char>>, n: int) -> Seq<Seq<char>>
    decreases n,
{
    if n <= 0 {
        Seq::empty()
    } else {
        spec_sort_insert(spec_sorted_paths(index, n - 1), index[n - 1])
    }
}

/// Sorted insertion lands at the first position whose entry does not precede
/// the new one.
proof fn lemma_sort_insert_at(v: Seq<Seq<char>>, x: Seq<char>, pos: int)
    requires
        0 <= pos <= v.len(),
        forall|i: int| 0 <= i < pos ==> spec_str_lt(#[trigger] v[i], x),
        pos < v.len() ==> !spec_str_lt(v[pos], x),
    ensures
        spec_sort_insert(v, x) == v.insert(pos, x),
    decreases v.len(),
{
    if v.len() == 0 {
        assert(spec_sort_insert(v, x) =~= v.insert(0, x));
    } else if pos == 0 {
        assert(spec_sort_insert(v, x) =~= v.insert(0, x));
    } else {
        assert(spec_str_lt(v[0], x));
        lemma_sort_insert_at(v.drop_first(), x, pos - 1);
        assert(seq![v[0]] + v.drop_first().insert(pos - 1, x) =~= v.insert(pos, x));
    }
}

/// A path that navigation keeps: it is indexed and none of the skip rules
/// applies.
pub open spec fn spec_nav_included(
    p: Seq<char>,
    index: Seq<Seq<char>>,
    store: Map<Seq<char>, PageMetadata>,
) -> bool {
    index.contains(p) && !spec_should_skip(p, spec_meta_of(store, p), index, store)
}

/// The index paths in the canonical build order; every element is an indexed
/// path.
fn sorted_paths(index: &PathIndex) -> (r: Vec<String>)
    ensures
        forall|i: int| 0 <= i < r@.len() ==> index@.contains((#[trigger] r@[i])@),
        r.deep_view() == spec_sorted_paths(index@, index@.len() as int),
{
    let n = index.len();
    let mut out: Vec<String> = Vec::new();
    let mut i: usize = 0;
    proof {
        assert(out.deep_view() =~= spec_sorted_paths(index@, 0));
    }
    while i < n
        invariant
            n == index@.len(),
            i <= n,
            forall|k: int| 0 <= k < out@.len() ==> index@.contains((#[trigger] out@[k])@),
            out.deep_view() == spec_sorted_paths(index@, i as int),
        decreases n - i,
    {
        let p = index.get(i);
        let mut pos: usize = 0;
        let m = out.len();
        while pos < m && str_lt(out[pos].as_str(), p.as_str())
            invariant
                i < n == index@.len(),
                p@ == index@[i as int],
                m == out@.len(),
                pos <= m,
                forall|l: int|
                    0 <= l < pos ==> spec_str_lt((#[trigger] out@[l])@, index@[i as int]),
            decreases m - pos,
        {
            pos = pos + 1;
        }
        let ghost before = out@;
        let ghost before_deep = out.deep_view();
        out.insert(pos, str_to_string(p.as_str()));
        proof {
            assert(out@ =~= before.insert(pos as int, out@[pos as int]));
            assert(out@[pos as int]@ == index@[i as int]);
            before.insert_ensures(pos as int, out@[pos as int]);
            assert(out.deep_view() =~= before_deep.insert(pos as int, index@[i as int])) by {
                before_deep.insert_ensures(pos as int, index@[i as int]);
                assert forall|k: int| 0 <= k < out.deep_view().len() implies out.deep_view()[k]
                    == before_deep.insert(pos as int, index@[i as int])[k] by {
                    if k < pos {
                        assert(out@[k] == before[k]);
                    } else if k > pos {
                        assert(out@[k] == before[k - 1]);
                    }
                }
            }
            assert forall|l: int| 0 <= l < pos implies spec_str_lt(
                #[trigger] before_deep[l],
                index@[i as int],
            ) by {
                assert(before_deep[l] == before[l]@);
            }
            if pos < before.len() {
                assert(!spec_str_lt(before_deep[pos as int], index@[i as int])) by {
                    assert(before_deep[pos as int] == before[pos as int]@);
                }
            }
            lemma_sort_insert_at(before_deep, index@[i as int], pos as int);
            assert forall|k: int| 0 <= k < out@.len() implies index@.contains(
                (#[trigger] out@[k])@,
            ) by {
                if k < pos {
                    assert(out@[k] == before[k]);
                } else if k > pos {
                    assert(out@[k] == before[k - 1]);
                }
            }
        }
        i = i + 1;
    }
    out
}


/// One fold of the sorted kept paths into the abstract children map: a kept
/// markdown path's leaf, carrying its display name, composite key and
/// current-page flag, is inserted along its directory chain; skipped paths
/// leave the map alone.
pub open spec fn spec_nav_fold(
    paths: Seq<Seq<char>>,
    n: int,
    index: Seq<Seq<char>>,
    store: Map<Seq<char>, PageMetadata>,
    current: Seq<char>,
) -> Map<Seq<char>, GNav>
    decreases n,
{
    if n <= 0 {
        Map::empty()
    } else {
        let m = spec_nav_fold(paths, n - 1, index, store, current);
        let p = paths[n - 1];
        let meta = spec_meta_of(store, p);
        if !spec_should_skip(p, meta, index, store) && crate::paths::spec_segments_of(p).len()
            > 0 {
            spec_insert_path(
                m,
                crate::paths::spec_segments_of(p).drop_last(),
                0,
                Seq::empty(),
                store,
                spec_nav_key(p, meta),
                GNav::File {
                    path: p,
                    name: spec_nav_name(p, meta),
                    cur: spec_html_path(p) == spec_html_path(current),
                },
            )
        } else {
            m
        }
    }
}

/// The navigation tree of a site, abstractly: a root directory holding the
/// fold of every kept index path, taken in the canonical sorted order.
pub open spec fn spec_nav_tree(
    index: Seq<Seq<char>>,
    store: Map<Seq<char>, PageMetadata>,
    current: Seq<char>,
) -> GNav {
    let sorted = spec_sorted_paths(index, index.len() as int);
    GNav::Dir {
        path: Seq::empty(),
        name: "Root"@,
        kids: spec_nav_fold(sorted, sorted.len() as int, index, store, current),
    }
}

/// Builds the navigation tree: the result is exactly the abstract tree of
/// the site (so its shape, names, keys and current-page flags are functions
/// of the index, the store and the current page), and every leaf it holds is
/// an indexed markdown document that no skip rule excludes.
pub fn build_nav_tree(index: &PathIndex, store: &MetadataStore, current_rel_path: &str) -> (r:
    NavItem)
    ensures
        nav_wf(r),
        r is Directory,
        forall|p: Seq<char>| tree_has_leaf(r, p) ==> spec_nav_included(p, index@, store@),
        nav_view(r) == spec_nav_tree(index@, store@, current_rel_path@),
{
    let sorted = sorted_paths(index);
    let ghost sorted_v = sorted.deep_view();
    let current_html = path_with_html_ext(current_rel_path);
    let mut root: Vec<(String, NavItem)> = Vec::new();
    let n = sorted.len();
    let mut t: usize = 0;
    proof {
        assert(kids_map_from(root, 0) =~= spec_nav_fold(
            sorted_v,
            0,
            index@,
            store@,
            current_rel_path@,
        ));
    }
    while t < n
        invariant
            n == sorted@.len(),
            t <= n,
            children_wf(root@),
            sorted_v == sorted.deep_view(),
            current_html@ == spec_html_path(current_rel_path@),
            forall|i: int| 0 <= i < n ==> index@.contains((#[trigger] sorted@[i])@),
            forall|p: Seq<char>|
                children_have_leaf(root@, p) ==> spec_nav_included(p, index@, store@),
            kids_map_from(root, 0) == spec_nav_fold(
                sorted_v,
                t as int,
                index@,
                store@,
                current_rel_path@,
            ),
        decreases n - t,
    {
        let path = &sorted[t];
        let default_m = PageMetadata::default();
        let meta: &PageMetadata = match store.get(path.as_str()) {
            Some(m) => m,
            None => &default_m,
        };
        proof {
            assert(*meta == spec_meta_of(store@, path@));
        }
        proof {
            assert(sorted_v[t as int] == path@);
        }
        if !should_skip_path(path.as_str(), meta, index, store) {
            match create_nav_item_data(path.as_str(), meta) {
                Some(data) => {
                    let (name, key) = data;
                    let mut dirs = normalize_pieces(split_path(path.as_str()));
                    let ghost segs_v = dirs.deep_view();
                    let _last_seg = dirs.pop();
                    proof {
                        assert(dirs.deep_view() =~= segs_v.drop_last());
                        assert(segs_v == crate::paths::spec_segments_of(path@));
                    }
                    let p_html = path_with_html_ext(path.as_str());
                    let is_current = str_eq(p_html.as_str(), current_html.as_str());
                    let leaf = NavItem::File {
                        rel_path: str_to_string(path.as_str()),
                        name,
                        is_current,
                    };
                    proof {
                        assert(nav_view(leaf) == GNav::File {
                            path: path@,
                            name: spec_nav_name(path@, *meta),
                            cur: spec_html_path(path@) == spec_html_path(current_rel_path@),
                        });
                    }
                    let empty_base = String::new();
                    proof {
                        assert(empty_base@ =~= Seq::<char>::empty());
                    }
                    root = insert_path_rec(
                        root,
                        &dirs,
                        0,
                        empty_base,
                        store,
                        key,
                        leaf,
                        Ghost(path@),
                    );
                    proof {
                        assert(spec_nav_included(path@, index@, store@));
                    }
                },
                None => {},
            }
        }
        t = t + 1;
    }
    let root_name = str_to_string("Root");
    let root_path = String::new();
    proof {
        assert(root_name@ == "Root"@);
        assert(root_path@ =~= Seq::<char>::empty());
    }
    let r = NavItem::Directory { rel_path: root_path, name: root_name, children: root };
    proof {
        assert forall|p: Seq<char>| tree_has_leaf(r, p) implies spec_nav_included(
            p,
            index@,
            store@,
        ) by {
            assert(children_have_leaf(r->Directory_children@, p));
        }
        assert(nav_view(r) == spec_nav_tree(index@, store@, current_rel_path@));
    }
    r
}


/// Two abstract trees that agree in everything but current-page flags.
pub open spec fn gnav_same_shape(a: GNav, b: GNav) -> bool
    decreases a,
{
    match (a, b) {
        (GNav::File { path: p1, name: n1, cur: _ }, GNav::File { path: p2, name: n2, cur: _ }) => {
            p1 == p2 && n1 == n2
        },
        (
            GNav::Dir { path: p1, name: n1, kids: k1 },
            GNav::Dir { path: p2, name: n2, kids: k2 },
        ) => {
            &&& p1 == p2
            &&& n1 == n2
            &&& k1.dom() == k2.dom()
            &&& forall|k: Seq<char>|
                #[trigger] k1.contains_key(k) ==> gnav_same_shape(k1[k], k2[k])
        },
        _ => false,
    }
}

/// Inserting shape-equal leaves along the same chain into shape-equal maps
/// keeps the maps shape-equal.
proof fn lemma_insert_path_same_shape(
    m1: Map<Seq<char>, GNav>,
    m2: Map<Seq<char>, GNav>,
    dirs: Seq<Seq<char>>,
    d: int,
    base: Seq<char>,
    store: Map<Seq<char>, PageMetadata>,
    leaf_key: Seq<char>,
    leaf1: GNav,
    leaf2: GNav,
)
    requires
        m1.dom() == m2.dom(),
        forall|k: Seq<char>| #[trigger] m1.contains_key(k) ==> gnav_same_shape(m1[k], m2[k]),
        gnav_same_shape(leaf1, leaf2),
    ensures
        ({
            let r1 = spec_insert_path(m1, dirs, d, base, store, leaf_key, leaf1);
            let r2 = spec_insert_path(m2, dirs, d, base, store, leaf_key, leaf2);
            &&& r1.dom() == r2.dom()
            &&& forall|k: Seq<char>| #[trigger] r1.contains_key(k) ==> gnav_same_shape(r1[k], r2[k])
        }),
    decreases dirs.len() - d,
{
    if d < 0 || d >= dirs.len() {
        let r1 = m1.insert(leaf_key, leaf1);
        let r2 = m2.insert(leaf_key, leaf2);
        assert(r1.dom() =~= r2.dom());
        assert forall|k: Seq<char>| #[trigger] r1.contains_key(k) implies gnav_same_shape(
            r1[k],
            r2[k],
        ) by {
            if k != leaf_key {
                assert(m1.contains_key(k));
            }
        }
    } else {
        let dirpath = spec_child_path(base, dirs[d]);
        let dkey = spec_dir_key(store, dirpath, dirs[d]);
        let dname = spec_dir_display(store, dirpath + "/index.md"@, dirs[d]);
        let sub1: Map<Seq<char>, GNav> = if m1.contains_key(dkey) && m1[dkey] is Dir {
            m1[dkey]->Dir_kids
        } else {
            Map::empty()
        };
        let sub2: Map<Seq<char>, GNav> = if m2.contains_key(dkey) && m2[dkey] is Dir {
            m2[dkey]->Dir_kids
        } else {
            Map::empty()
        };
        assert(sub1.dom() == sub2.dom() && forall|k: Seq<char>|
            #[trigger] sub1.contains_key(k) ==> gnav_same_shape(sub1[k], sub2[k])) by {
            if m1.contains_key(dkey) {
                assert(gnav_same_shape(m1[dkey], m2[dkey]));
                if !(m1[dkey] is Dir) {
                    assert(sub1 =~= sub2);
                }
            } else {
                assert(!m2.contains_key(dkey));
                assert(sub1 =~= sub2);
            }
        }
        lemma_insert_path_same_shape(
            sub1,
            sub2,
            dirs,
            d + 1,
            dirpath,
            store,
            leaf_key,
            leaf1,
            leaf2,
        );
        let n1 = GNav::Dir {
            path: dirpath,
            name: dname,
            kids: spec_insert_path(sub1, dirs, d + 1, dirpath, store, leaf_key, leaf1),
        };
        let n2 = GNav::Dir {
            path: dirpath,
            name: dname,
            kids: spec_insert_path(sub2, dirs, d + 1, dirpath, store, leaf_key, leaf2),
        };
        assert(gnav_same_shape(n1, n2));
        let r1 = m1.insert(dkey, n1);
        let r2 = m2.insert(dkey, n2);
        assert(r1.dom() =~= r2.dom());
        assert forall|k: Seq<char>| #[trigger] r1.contains_key(k) implies gnav_same_shape(
            r1[k],
            r2[k],
        ) by {
            if k != dkey {
                assert(m1.contains_key(k));
            }
        }
    }
}

/// The navigation tree's shape — its directory structure, paths, display
/// names and key order — does not depend on which page is being rendered:
/// the abstract trees built for two current pages differ at most in their
/// current-page flags.
pub proof fn lemma_nav_tree_shape_independent(
    index: Seq<Seq<char>>,
    store: Map<Seq<char>, PageMetadata>,
    c1: Seq<char>,
    c2: Seq<char>,
)
    ensures
        gnav_same_shape(spec_nav_tree(index, store, c1), spec_nav_tree(index, store, c2)),
{
    let sorted = spec_sorted_paths(index, index.len() as int);
    lemma_nav_fold_same_shape(sorted, sorted.len() as int, index, store, c1, c2);
}

/// The fold of the kept paths yields shape-equal maps for any two current
/// pages.
proof fn lemma_nav_fold_same_shape(
    paths: Seq<Seq<char>>,
    n: int,
    index: Seq<Seq<char>>,
    store: Map<Seq<char>, PageMetadata>,
    c1: Seq<char>,
    c2: Seq<char>,
)
    ensures
        ({
            let m1 = spec_nav_fold(paths, n, index, store, c1);
            let m2 = spec_nav_fold(paths, n, index, store, c2);
            &&& m1.dom() == m2.dom()
            &&& forall|k: Seq<char>| #[trigger] m1.contains_key(k) ==> gnav_same_shape(m1[k], m2[k])
        }),
    decreases n,
{
    if n <= 0 {
        assert(spec_nav_fold(paths, n, index, store, c1).dom() =~= spec_nav_fold(
            paths,
            n,
            index,
            store,
            c2,
        ).dom());
    } else {
        lemma_nav_fold_same_shape(paths, n - 1, index, store, c1, c2);
        let p = paths[n - 1];
        let meta = spec_meta_of(store, p);
        if !spec_should_skip(p, meta, index, store) && crate::paths::spec_segments_of(p).len()
            > 0 {
            let leaf1 = GNav::File {
                path: p,
                name: spec_nav_name(p, meta),
                cur: spec_html_path(p) == spec_html_path(c1),
            };
            let leaf2 = GNav::File {
                path: p,
                name: spec_nav_name(p, meta),
                cur: spec_html_path(p) == spec_html_path(c2),
            };
            lemma_insert_path_same_shape(
                spec_nav_fold(paths, n - 1, index, store, c1),
                spec_nav_fold(paths, n - 1, index, store, c2),
                crate::paths::spec_segments_of(p).drop_last(),
                0,
                Seq::empty(),
                store,
                spec_nav_key(p, meta),
                leaf1,
                leaf2,
            );
        }
    }
}


/// Whether the abstract tree holds a leaf for the document `p`.
pub open spec fn gnav_has_leaf(g: GNav, p: Seq<char>) -> bool
    decreases g,
{
    match g {
        GNav::File { path, .. } => path == p,
        GNav::Dir { kids, .. } => exists|k: Seq<char>|
            #[trigger] kids.contains_key(k) && gnav_has_leaf(kids[k], p),
    }
}

/// A key held by the children map is held by some entry of the list.
proof fn lemma_kids_contains_exists(a: Vec<(String, NavItem)>, i: int, k: Seq<char>)
    requires
        kids_map_from(a, i).contains_key(k),
    ensures
        exists|j: int|
            i <= j < a@.len() && (#[trigger] a@[j]).0@ == k && nav_view(a@[j].1) == kids_map_from(
                a,
                i,
            )[k],
    decreases a@.len() - i,
{
    if 0 <= i && i < a@.len() {
        if a@[i].0@ == k {
            assert(a@[i].0@ == k && nav_view(a@[i].1) == kids_map_from(a, i)[k]);
        } else {
            lemma_kids_contains_exists(a, i + 1, k);
        }
    }
}

/// A leaf of the abstract tree is a leaf of the concrete one: membership
/// transfers through the view.
pub proof fn lemma_gnav_leaf_to_tree(item: NavItem, p: Seq<char>)
    requires
        gnav_has_leaf(nav_view(item), p),
    ensures
        tree_has_leaf(item, p),
    decreases item,
{
    match item {
        NavItem::File { .. } => {},
        NavItem::Directory { rel_path: _, name: _, children } => {
            let kids = kids_map_from(children, 0);
            let k = choose|k: Seq<char>|
                #[trigger] kids.contains_key(k) && gnav_has_leaf(kids[k], p);
            lemma_kids_contains_exists(children, 0, k);
            let j = choose|j: int|
                0 <= j < children@.len() && (#[trigger] children@[j]).0@ == k && nav_view(
                    children@[j].1,
                ) == kids[k];
            lemma_gnav_leaf_to_tree(children@[j].1, p);
        },
    }
}


/// The chain of composite keys a path's directory components denote.
pub open spec fn spec_chain_keys(
    dirs: Seq<Seq<char>>,
    d: int,
    base: Seq<char>,
    store: Map<Seq<char>, PageMetadata>,
) -> Seq<Seq<char>>
    decreases dirs.len() - d,
{
    if d < 0 || d >= dirs.len() {
        Seq::empty()
    } else {
        seq![spec_dir_key(store, spec_child_path(base, dirs[d]), dirs[d])] + spec_chain_keys(
            dirs,
            d + 1,
            spec_child_path(base, dirs[d]),
            store,
        )
    }
}

/// The address of a document in the tree: its directory key chain followed by
/// its own composite key.
pub open spec fn spec_nav_addr(p: Seq<char>, store: Map<Seq<char>, PageMetadata>) -> Seq<
    Seq<char>,
> {
    spec_chain_keys(
        crate::paths::spec_segments_of(p).drop_last(),
        0,
        Seq::empty(),
        store,
    ).push(spec_nav_key(p, spec_meta_of(store, p)))
}

/// One address leads the way to another.
pub open spec fn addr_prefix(a: Seq<Seq<char>>, b: Seq<Seq<char>>) -> bool {
    a.len() <= b.len() && b.take(a.len() as int) == a
}

/// The node at an address, walking the key chain through directory nodes.
pub open spec fn gnav_at(kids: Map<Seq<char>, GNav>, addr: Seq<Seq<char>>) -> Option<GNav>
    decreases addr.len(),
{
    if addr.len() == 0 {
        None
    } else if !kids.contains_key(addr[0]) {
        None
    } else if addr.len() == 1 {
        Some(kids[addr[0]])
    } else if kids[addr[0]] is Dir {
        gnav_at(kids[addr[0]]->Dir_kids, addr.drop_first())
    } else {
        None
    }
}

/// The inserted leaf stands at its own address.
proof fn lemma_insert_path_at(
    m: Map<Seq<char>, GNav>,
    dirs: Seq<Seq<char>>,
    d: int,
    base: Seq<char>,
    store: Map<Seq<char>, PageMetadata>,
    leaf_key: Seq<char>,
    leaf: GNav,
)
    requires
        0 <= d <= dirs.len(),
    ensures
        gnav_at(
            spec_insert_path(m, dirs, d, base, store, leaf_key, leaf),
            spec_chain_keys(dirs, d, base, store).push(leaf_key),
        ) == Some(leaf),
    decreases dirs.len() - d,
{
    let r = spec_insert_path(m, dirs, d, base, store, leaf_key, leaf);
    let addr = spec_chain_keys(dirs, d, base, store).push(leaf_key);
    if d == dirs.len() {
        assert(addr =~= seq![leaf_key]);
        assert(r.contains_key(leaf_key));
    } else {
        let dirpath = spec_child_path(base, dirs[d]);
        let dkey = spec_dir_key(store, dirpath, dirs[d]);
        lemma_insert_path_at(
            if m.contains_key(dkey) && m[dkey] is Dir {
                m[dkey]->Dir_kids
            } else {
                Map::empty()
            },
            dirs,
            d + 1,
            dirpath,
            store,
            leaf_key,
            leaf,
        );
        assert(addr[0] == dkey);
        assert(addr.len() > 1);
        assert(r.contains_key(dkey) && r[dkey] is Dir);
        assert(addr.drop_first() =~= spec_chain_keys(dirs, d + 1, dirpath, store).push(leaf_key));
    }
}

/// An insertion leaves every address alone that neither leads to its own
/// address nor extends it.
proof fn lemma_insert_path_untouched(
    m: Map<Seq<char>, GNav>,
    dirs: Seq<Seq<char>>,
    d: int,
    base: Seq<char>,
    store: Map<Seq<char>, PageMetadata>,
    leaf_key: Seq<char>,
    leaf: GNav,
    addr: Seq<Seq<char>>,
)
    requires
        0 <= d <= dirs.len(),
        !addr_prefix(addr, spec_chain_keys(dirs, d, base, store).push(leaf_key)),
        !addr_prefix(spec_chain_keys(dirs, d, base, store).push(leaf_key), addr),
    ensures
        gnav_at(spec_insert_path(m, dirs, d, base, store, leaf_key, leaf), addr) == gnav_at(
            m,
            addr,
        ),
    decreases dirs.len() - d,
{
    let r = spec_insert_path(m, dirs, d, base, store, leaf_key, leaf);
    let ins = spec_chain_keys(dirs, d, base, store).push(leaf_key);
    if addr.len() == 0 {
        assert(addr_prefix(addr, ins)) by {
            assert(ins.take(0) =~= addr);
        }
    } else if d == dirs.len() {
        assert(ins =~= seq![leaf_key]);
        if addr[0] == leaf_key {
            assert(addr_prefix(ins, addr)) by {
                assert(addr.take(1) =~= ins);
            }
        } else {
            assert(r.contains_key(addr[0]) == m.contains_key(addr[0]));
            if m.contains_key(addr[0]) {
                assert(r[addr[0]] == m[addr[0]]);
            }
        }
    } else {
        let dirpath = spec_child_path(base, dirs[d]);
        let dkey = spec_dir_key(store, dirpath, dirs[d]);
        assert(ins[0] == dkey);
        if addr[0] != dkey {
            assert(r.contains_key(addr[0]) == m.contains_key(addr[0]));
            if m.contains_key(addr[0]) {
                assert(r[addr[0]] == m[addr[0]]);
            }
        } else if addr.len() == 1 {
            assert(addr_prefix(addr, ins)) by {
                assert(ins.take(1) =~= addr);
            }
        } else {
            let ins2 = spec_chain_keys(dirs, d + 1, dirpath, store).push(leaf_key);
            assert(ins.drop_first() =~= ins2);
            assert(!addr_prefix(addr.drop_first(), ins2)) by {
                if addr_prefix(addr.drop_first(), ins2) {
                    assert(addr_prefix(addr, ins)) by {
                        assert(ins.take(addr.len() as int) =~= addr) by {
                            assert forall|i: int| 0 <= i < addr.len() implies ins[i]
                                == addr[i] by {
                                if i > 0 {
                                    assert(ins2.take(addr.drop_first().len() as int)[i - 1]
                                        == addr.drop_first()[i - 1]);
                                    assert(ins.drop_first()[i - 1] == ins[i]);
                                    assert(addr.drop_first()[i - 1] == addr[i]);
                                }
                            }
                        }
                    }
                }
            }
            assert(!addr_prefix(ins2, addr.drop_first())) by {
                if addr_prefix(ins2, addr.drop_first()) {
                    assert(addr_prefix(ins, addr)) by {
                        assert(addr.take(ins.len() as int) =~= ins) by {
                            assert forall|i: int| 0 <= i < ins.len() implies addr[i]
                                == ins[i] by {
                                if i > 0 {
                                    assert(addr.drop_first().take(ins2.len() as int)[i - 1]
                                        == ins2[i - 1]);
                                    assert(ins.drop_first()[i - 1] == ins[i]);
                                    assert(addr.drop_first()[i - 1] == addr[i]);
                                }
                            }
                        }
                    }
                }
            }
            if m.contains_key(dkey) && m[dkey] is Dir {
                lemma_insert_path_untouched(
                    m[dkey]->Dir_kids,
                    dirs,
                    d + 1,
                    dirpath,
                    store,
                    leaf_key,
                    leaf,
                    addr.drop_first(),
                );
            } else {
                lemma_insert_path_untouched(
                    Map::empty(),
                    dirs,
                    d + 1,
                    dirpath,
                    store,
                    leaf_key,
                    leaf,
                    addr.drop_first(),
                );
                assert(gnav_at(Map::empty(), addr.drop_first()) is None);
                assert(gnav_at(m, addr) is None);
            }
        }
    }
}


/// A path the fold keeps: a markdown document no skip rule excludes, with at
/// least one segment.
pub open spec fn spec_nav_kept(
    p: Seq<char>,
    index: Seq<Seq<char>>,
    store: Map<Seq<char>, PageMetadata>,
) -> bool {
    !spec_should_skip(p, spec_meta_of(store, p), index, store)
        && crate::paths::spec_segments_of(p).len() > 0
}

/// The design's key-uniqueness invariant: no kept document's address leads
/// the way to another kept document's address (in particular, no two kept
/// documents share an address).
pub open spec fn spec_nav_addrs_free(
    index: Seq<Seq<char>>,
    store: Map<Seq<char>, PageMetadata>,
) -> bool {
    forall|p1: Seq<char>, p2: Seq<char>|
        index.contains(p1) && index.contains(p2) && p1 != p2 && spec_nav_kept(p1, index, store)
            && spec_nav_kept(p2, index, store) ==> !addr_prefix(
            #[trigger] spec_nav_addr(p1, store),
            #[trigger] spec_nav_addr(p2, store),
        )
}

/// Sorted insertion holds exactly the old elements and the new one.
proof fn lemma_sort_insert_elems(v: Seq<Seq<char>>, x: Seq<char>, y: Seq<char>)
    ensures
        spec_sort_insert(v, x).contains(y) <==> (v.contains(y) || y == x),
    decreases v.len(),
{
    let r = spec_sort_insert(v, x);
    if v.len() == 0 {
        assert(r =~= seq![x]);
        if y == x {
            assert(r[0] == y);
        }
        if r.contains(y) {
            let i = choose|i: int| 0 <= i < r.len() && r[i] == y;
            assert(i == 0);
        }
    } else if spec_str_lt(v[0], x) {
        lemma_sort_insert_elems(v.drop_first(), x, y);
        let rec = spec_sort_insert(v.drop_first(), x);
        assert(r == seq![v[0]] + rec);
        if r.contains(y) {
            let i = choose|i: int| 0 <= i < r.len() && r[i] == y;
            if i == 0 {
                assert(v[0] == y);
            } else {
                assert(rec[i - 1] == y);
                assert(rec.contains(y));
                if v.drop_first().contains(y) {
                    let j = choose|j: int| 0 <= j < v.drop_first().len() && v.drop_first()[j] == y;
                    assert(v[j + 1] == y);
                }
            }
        }
        if v.contains(y) {
            let i = choose|i: int| 0 <= i < v.len() && v[i] == y;
            if i == 0 {
                assert(r[0] == y);
            } else {
                assert(v.drop_first()[i - 1] == y);
                assert(rec.contains(y));
                let j = choose|j: int| 0 <= j < rec.len() && rec[j] == y;
                assert(r[j + 1] == y);
            }
        }
        if y == x {
            assert(rec.contains(y));
            let j = choose|j: int| 0 <= j < rec.len() && rec[j] == y;
            assert(r[j + 1] == y);
        }
    } else {
        assert(r == seq![x] + v);
        if r.contains(y) {
            let i = choose|i: int| 0 <= i < r.len() && r[i] == y;
            if i == 0 {
            } else {
                assert(v[i - 1] == y);
            }
        }
        if v.contains(y) {
            let i = choose|i: int| 0 <= i < v.len() && v[i] == y;
            assert(r[i + 1] == y);
        }
        if y == x {
            assert(r[0] == y);
        }
    }
}

/// The canonical order holds exactly the first `n` index paths.
proof fn lemma_sorted_paths_elems(index: Seq<Seq<char>>, n: int, y: Seq<char>)
    requires
        0 <= n <= index.len(),
    ensures
        spec_sorted_paths(index, n).contains(y) <==> (exists|j: int|
            0 <= j < n && index[j] == y),
    decreases n,
{
    if n > 0 {
        lemma_sorted_paths_elems(index, n - 1, y);
        lemma_sort_insert_elems(spec_sorted_paths(index, n - 1), index[n - 1], y);
        if spec_sorted_paths(index, n).contains(y) {
            if spec_sorted_paths(index, n - 1).contains(y) {
                let j = choose|j: int| 0 <= j < n - 1 && index[j] == y;
                assert(0 <= j < n && index[j] == y);
            } else {
                assert(index[n - 1] == y);
            }
        }
        if exists|j: int| 0 <= j < n && index[j] == y {
            let j = choose|j: int| 0 <= j < n && index[j] == y;
            if j < n - 1 {
                assert(spec_sorted_paths(index, n - 1).contains(y));
            }
        }
    }
}

/// A node found at an address passes its leaves up to the whole map.
proof fn lemma_gnav_at_leaf(kids: Map<Seq<char>, GNav>, addr: Seq<Seq<char>>, g: GNav, p: Seq<char>)
    requires
        gnav_at(kids, addr) == Some(g),
        gnav_has_leaf(g, p),
    ensures
        exists|k: Seq<char>| #[trigger] kids.contains_key(k) && gnav_has_leaf(kids[k], p),
    decreases addr.len(),
{
    if addr.len() == 1 {
        assert(kids.contains_key(addr[0]) && gnav_has_leaf(kids[addr[0]], p));
    } else {
        lemma_gnav_at_leaf(kids[addr[0]]->Dir_kids, addr.drop_first(), g, p);
        assert(gnav_has_leaf(kids[addr[0]], p));
    }
}

/// In the fold of the first `n` paths, a kept path among them stands at its
/// own address, as long as no other kept path's address collides with it.
proof fn lemma_nav_fold_at(
    paths: Seq<Seq<char>>,
    n: int,
    index: Seq<Seq<char>>,
    store: Map<Seq<char>, PageMetadata>,
    current: Seq<char>,
    p: Seq<char>,
)
    requires
        0 <= n <= paths.len(),
        exists|i: int| 0 <= i < n && paths[i] == p,
        spec_nav_kept(p, index, store),
        forall|a: int|
            0 <= a < paths.len() && paths[a] != p && spec_nav_kept(#[trigger] paths[a], index, store)
                ==> !addr_prefix(spec_nav_addr(paths[a], store), spec_nav_addr(p, store))
                && !addr_prefix(spec_nav_addr(p, store), spec_nav_addr(paths[a], store)),
    ensures
        gnav_at(spec_nav_fold(paths, n, index, store, current), spec_nav_addr(p, store)) == Some(
            GNav::File {
                path: p,
                name: spec_nav_name(p, spec_meta_of(store, p)),
                cur: spec_html_path(p) == spec_html_path(current),
            },
        ),
    decreases n,
{
    let q = paths[n - 1];
    let m_prev = spec_nav_fold(paths, n - 1, index, store, current);
    let meta_q = spec_meta_of(store, q);
    if q == p {
        lemma_insert_path_at(
            m_prev,
            crate::paths::spec_segments_of(p).drop_last(),
            0,
            Seq::empty(),
            store,
            spec_nav_key(p, spec_meta_of(store, p)),
            GNav::File {
                path: p,
                name: spec_nav_name(p, spec_meta_of(store, p)),
                cur: spec_html_path(p) == spec_html_path(current),
            },
        );
    } else {
        let i = choose|i: int| 0 <= i < n && paths[i] == p;
        assert(i < n - 1);
        lemma_nav_fold_at(paths, n - 1, index, store, current, p);
        if spec_nav_kept(q, index, store) {
            assert(!addr_prefix(spec_nav_addr(q, store), spec_nav_addr(p, store))
                && !addr_prefix(spec_nav_addr(p, store), spec_nav_addr(q, store)));
            lemma_insert_path_untouched(
                m_prev,
                crate::paths::spec_segments_of(q).drop_last(),
                0,
                Seq::empty(),
                store,
                spec_nav_key(q, meta_q),
                GNav::File {
                    path: q,
                    name: spec_nav_name(q, meta_q),
                    cur: spec_html_path(q) == spec_html_path(current),
                },
                spec_nav_addr(p, store),
            );
        }
    }
}

/// Completeness of the navigation tree: under the design's key-uniqueness
/// invariant, every indexed markdown document that no skip rule excludes
/// stands in the abstract tree — at its own address, hence as a leaf.
pub proof fn lemma_nav_tree_complete(
    index: Seq<Seq<char>>,
    store: Map<Seq<char>, PageMetadata>,
    current: Seq<char>,
    p: Seq<char>,
)
    requires
        index.contains(p),
        spec_nav_kept(p, index, store),
        spec_nav_addrs_free(index, store),
    ensures
        gnav_has_leaf(spec_nav_tree(index, store, current), p),
{
    let sorted = spec_sorted_paths(index, index.len() as int);
    lemma_sorted_paths_elems(index, index.len() as int, p);
    assert(sorted.contains(p));
    let i0 = choose|i0: int| 0 <= i0 < sorted.len() && sorted[i0] == p;
    assert forall|a: int|
        0 <= a < sorted.len() && sorted[a] != p && spec_nav_kept(
            #[trigger] sorted[a],
            index,
            store,
        ) implies !addr_prefix(spec_nav_addr(sorted[a], store), spec_nav_addr(p, store))
        && !addr_prefix(spec_nav_addr(p, store), spec_nav_addr(sorted[a], store)) by {
        lemma_sorted_paths_elems(index, index.len() as int, sorted[a]);
        assert(index.contains(sorted[a]));
    }
    lemma_nav_fold_at(sorted, sorted.len() as int, index, store, current, p);
    let leaf = GNav::File {
        path: p,
        name: spec_nav_name(p, spec_meta_of(store, p)),
        cur: spec_html_path(p) == spec_html_path(current),
    };
    lemma_gnav_at_leaf(
        spec_nav_tree(index, store, current)->Dir_kids,
        spec_nav_addr(p, store),
        leaf,
        p,
    );
}


/// Completeness carried to the concrete tree: under the key-uniqueness
/// invariant, every kept indexed document is a leaf of any tree whose
/// abstract form is the site's navigation tree — in particular of what
/// `build_nav_tree` returns.
pub proof fn lemma_built_tree_complete(
    tree: NavItem,
    index: Seq<Seq<char>>,
    store: Map<Seq<char>, PageMetadata>,
    current: Seq<char>,
    p: Seq<char>,
)
    requires
        nav_view(tree) == spec_nav_tree(index, store, current),
        index.contains(p),
        spec_nav_kept(p, index, store),
        spec_nav_addrs_free(index, store),
    ensures
        tree_has_leaf(tree, p),
{
    lemma_nav_tree_complete(index, store, current, p);
    lemma_gnav_leaf_to_tree(tree, p);
}

/// Some child is a directory.
pub open spec fn spec_has_dir(children: Seq<(String, NavItem)>) -> bool {
    exists|i: int| 0 <= i < children.len() && (#[trigger] children[i]).1 is Directory
}

/// Some child is a file leaf.
pub open spec fn spec_has_file(children: Seq<(String, NavItem)>) -> bool {
    exists|i: int| 0 <= i < children.len() && (#[trigger] children[i]).1 is File
}

/// Whether a directory is adjacent to the current page: within one level of
/// the root, an ancestor of the current page, or sharing its immediate
/// parent.
pub open spec fn spec_nav_adjacent(dir: Seq<char>, current: Seq<char>) -> bool {
    ||| spec_split(dir).len() <= 1
    ||| spec_path_under(current, dir)
    ||| spec_split(dir).drop_last() == spec_split(current).drop_last()
}

/// The markup of the children in one phase: directories first, then files.
pub open spec fn spec_nav_children_html(
    children: Vec<(String, NavItem)>,
    i: int,
    current: Seq<char>,
    index: Seq<Seq<char>>,
    dirs_phase: bool,
) -> Seq<char>
    decreases children, children@.len() - i,
{
    if i < 0 || i >= children@.len() {
        Seq::empty()
    } else {
        let h = if (children@[i].1 is Directory) == dirs_phase {
            spec_nav_html(children@[i].1, current, index, false)
        } else {
            Seq::empty()
        };
        h + spec_nav_children_html(children, i + 1, current, index, dirs_phase)
    }
}

/// The markup of one node: a leaf link (or its highlighted form when it is
/// the current page); for a directory, the root list, a collapsed single
/// link when it is not adjacent to the current page, or a disclosure element
/// (pre-opened on the current page's ancestry) with directories first, a
/// separator, then files.
pub open spec fn spec_nav_html(
    item: NavItem,
    current: Seq<char>,
    index: Seq<Seq<char>>,
    is_root: bool,
) -> Seq<char>
    decreases item,
{
    match item {
        NavItem::File { rel_path, name, is_current } => {
            if is_current {
                "<li class=\"current-file\" title=\""@ + rel_path@ + "\">"@ + name@ + "</li>"@
            } else {
                "<li><a class=\"nav-link\" href=\""@ + spec_rewrite(
                    current,
                    seq!['/'] + rel_path@,
                    index,
                ) + "\" title=\""@ + rel_path@ + "\">"@ + name@ + "</a></li>"@
            }
        },
        NavItem::Directory { rel_path, name, children } => {
            let target = if rel_path@.len() == 0 {
                "/index.md"@
            } else {
                seq!['/'] + rel_path@ + "/index.md"@
            };
            let link = spec_rewrite(current, target, index);
            let kids = spec_nav_children_html(children, 0, current, index, true) + (if spec_has_dir(
                children@,
            ) && spec_has_file(children@) {
                "<li class=\"nav-separator\"></li>"@
            } else {
                Seq::<char>::empty()
            }) + spec_nav_children_html(children, 0, current, index, false);
            if is_root {
                "<ul>"@ + kids + "</ul>"@
            } else if !spec_nav_adjacent(rel_path@, current) {
                "<li><a class=\"nav-link\" href=\""@ + link + "\" title=\""@ + rel_path@ + "\">"@
                    + name@ + "</a></li>"@
            } else if children@.len() == 0 {
                Seq::empty()
            } else {
                let is_open = spec_path_under(current, rel_path@) && rel_path@.len() > 0;
                let is_cur = spec_html_path(current) == rel_path@ + "/index.html"@;
                let li_class = if is_open || is_cur {
                    " class=\"current-branch\""@
                } else {
                    Seq::<char>::empty()
                };
                let sum_class = if is_cur {
                    " class=\"current-summary\""@
                } else {
                    Seq::<char>::empty()
                };
                "<li"@ + li_class + "><details "@ + (if is_open {
                    "open"@
                } else {
                    Seq::<char>::empty()
                }) + "><summary><a"@ + sum_class + " href=\""@ + link + "\">"@ + name@
                    + "</a></summary><ul>"@ + kids + "</ul></details></li>"@
            }
        },
    }
}

/// Renders a navigation node to markup.
pub fn nav_tree_to_html(
    item: &NavItem,
    current_rel_path: &str,
    index: &PathIndex,
    is_root: bool,
) -> (r: String)
    ensures
        r@ == spec_nav_html(*item, current_rel_path@, index@, is_root),
    decreases *item,
{
    match item {
        NavItem::File { rel_path, name, is_current } => {
            let mut target = str_to_string("/");
            target.append(rel_path.as_str());
            proof {
                reveal_strlit("/");
                assert(target@ =~= seq!['/'] + rel_path@);
            }
            if *is_current {
                let mut s = str_to_string("<li class=\"current-file\" title=\"");
                s.append(rel_path.as_str());
                s.append("\">");
                s.append(name.as_str());
                s.append("</li>");
                proof {
                    assert(s@ =~= spec_nav_html(*item, current_rel_path@, index@, is_root));
                }
                s
            } else {
                let link = rewrite_link_to_relative(current_rel_path, target.as_str(), index);
                let mut s = str_to_string("<li><a class=\"nav-link\" href=\"");
                s.append(link.as_str());
                s.append("\" title=\"");
                s.append(rel_path.as_str());
                s.append("\">");
                s.append(name.as_str());
                s.append("</a></li>");
                proof {
                    assert(s@ =~= spec_nav_html(*item, current_rel_path@, index@, is_root));
                }
                s
            }
        },
        NavItem::Directory { rel_path, name, children } => {
            let target: String = if rel_path.as_str().is_empty() {
                str_to_string("/index.md")
            } else {
                let mut t = str_to_string("/");
                t.append(rel_path.as_str());
                t.append("/index.md");
                t
            };
            proof {
                reveal_strlit("/");
                assert("/"@ =~= seq!['/']);
                if rel_path@.len() > 0 {
                    assert(target@ =~= seq!['/'] + rel_path@ + "/index.md"@);
                }
            }
            let link = rewrite_link_to_relative(current_rel_path, target.as_str(), index);

            // The children's markup: directories, a separator if both kinds
            // occur, then files.
            let n = children.len();
            let mut has_dirs = false;
            let mut has_files = false;
            let mut scan: usize = 0;
            while scan < n
                invariant
                    n == children@.len(),
                    scan <= n,
                    has_dirs == exists|i: int|
                        0 <= i < scan && (#[trigger] children@[i]).1 is Directory,
                    has_files == exists|i: int|
                        0 <= i < scan && (#[trigger] children@[i]).1 is File,
                decreases n - scan,
            {
                match &children[scan].1 {
                    NavItem::Directory { .. } => { has_dirs = true; },
                    NavItem::File { .. } => { has_files = true; },
                }
                scan = scan + 1;
            }
            proof {
                assert(has_dirs == spec_has_dir(children@));
                assert(has_files == spec_has_file(children@));
            }
            let mut kids = String::new();
            let mut i: usize = 0;
            proof {
                assert(kids@ =~= Seq::<char>::empty());
            }
            while i < n
                invariant
                    n == children@.len(),
                    i <= n,
                    decreases_to!(*item => *children),
                    kids@ + spec_nav_children_html(*children, i as int, current_rel_path@, index@, true)
                        == spec_nav_children_html(*children, 0, current_rel_path@, index@, true),
                decreases n - i,
            {
                match &children[i].1 {
                    NavItem::Directory { .. } => {
                        proof {
                            vstd::std_specs::vec::axiom_vec_index_decreases(*children, i as int);
                            assert(decreases_to!(*children => children[i as int]));
                            assert(decreases_to!(children[i as int] => children@[i as int].1));
                            assert(decreases_to!(*item => children@[i as int].1));
                        }
                        let h = nav_tree_to_html(&children[i].1, current_rel_path, index, false);
                        kids.append(h.as_str());
                    },
                    NavItem::File { .. } => {},
                }
                i = i + 1;
            }
            proof {
                assert(spec_nav_children_html(*children, n as int, current_rel_path@, index@, true)
                    =~= Seq::<char>::empty());
                assert(kids@ + Seq::<char>::empty() =~= kids@);
            }
            if has_dirs && has_files {
                kids.append("<li class=\"nav-separator\"></li>");
            }
            let ghost kids_mid = kids@;
            let mut j: usize = 0;
            while j < n
                invariant
                    n == children@.len(),
                    j <= n,
                    decreases_to!(*item => *children),
                    kids@ + spec_nav_children_html(*children, j as int, current_rel_path@, index@, false)
                        == kids_mid + spec_nav_children_html(*children, 0, current_rel_path@, index@, false),
                decreases n - j,
            {
                match &children[j].1 {
                    NavItem::File { .. } => {
                        proof {
                            vstd::std_specs::vec::axiom_vec_index_decreases(*children, j as int);
                            assert(decreases_to!(*children => children[j as int]));
                            assert(decreases_to!(children[j as int] => children@[j as int].1));
                            assert(decreases_to!(*item => children@[j as int].1));
                        }
                        let h = nav_tree_to_html(&children[j].1, current_rel_path, index, false);
                        kids.append(h.as_str());
                    },
                    NavItem::Directory { .. } => {},
                }
                j = j + 1;
            }
            proof {
                assert(spec_nav_children_html(*children, n as int, current_rel_path@, index@, false)
                    =~= Seq::<char>::empty());
                assert(kids@ + Seq::<char>::empty() =~= kids@);
                let ghost full = spec_nav_children_html(*children, 0, current_rel_path@, index@, true)
                    + (if spec_has_dir(children@) && spec_has_file(children@) {
                    "<li class=\"nav-separator\"></li>"@
                } else {
                    Seq::<char>::empty()
                }) + spec_nav_children_html(*children, 0, current_rel_path@, index@, false);
                assert(kids@ =~= full);
            }

            // adjacency of this directory to the current page
            let segs = split_path(rel_path.as_str());
            let depth_ok = segs.len() <= 1;
            let under = {
                if str_eq(current_rel_path, rel_path.as_str()) {
                    true
                } else {
                    let mut dp = str_to_string(rel_path.as_str());
                    dp.append("/");
                    proof {
                        reveal_strlit("/");
                        assert(dp@ =~= rel_path@ + seq!['/']);
                    }
                    str_starts_with(current_rel_path, dp.as_str())
                }
            };
            let same_parent = {
                let mut a = split_path(rel_path.as_str());
                let ghost av = a.deep_view();
                let _ = a.pop();
                let mut b = split_path(current_rel_path);
                let ghost bv = b.deep_view();
                let _ = b.pop();
                proof {
                    assert(a.deep_view() =~= av.drop_last());
                    assert(b.deep_view() =~= bv.drop_last());
                }
                segs_eq(&a, &b)
            };
            let adjacent = depth_ok || under || same_parent;
            proof {
                assert(under == spec_path_under(current_rel_path@, rel_path@));
                assert(adjacent == spec_nav_adjacent(rel_path@, current_rel_path@));
            }
            if is_root {
                let mut s = str_to_string("<ul>");
                s.append(kids.as_str());
                s.append("</ul>");
                proof {
                    assert(s@ =~= "<ul>"@ + kids@ + "</ul>"@);
                    assert(*item == NavItem::Directory {
                        rel_path: *rel_path,
                        name: *name,
                        children: *children,
                    });
                    let kspec = spec_nav_children_html(*children, 0, current_rel_path@, index@, true)
                        + (if spec_has_dir(children@) && spec_has_file(children@) {
                        "<li class=\"nav-separator\"></li>"@
                    } else {
                        Seq::<char>::empty()
                    }) + spec_nav_children_html(*children, 0, current_rel_path@, index@, false);
                    assert(kids@ == kspec);
                    assert(spec_nav_html(*item, current_rel_path@, index@, true) == "<ul>"@ + kspec
                        + "</ul>"@);
                    assert(s@ == spec_nav_html(*item, current_rel_path@, index@, is_root));
                }
                s
            } else if !adjacent {
                let mut s = str_to_string("<li><a class=\"nav-link\" href=\"");
                s.append(link.as_str());
                s.append("\" title=\"");
                s.append(rel_path.as_str());
                s.append("\">");
                s.append(name.as_str());
                s.append("</a></li>");
                proof {
                    assert(s@ =~= spec_nav_html(*item, current_rel_path@, index@, is_root));
                }
                s
            } else if n == 0 {
                let s = String::new();
                proof {
                    assert(s@ =~= spec_nav_html(*item, current_rel_path@, index@, is_root));
                }
                s
            } else {
                let is_open = under && !rel_path.as_str().is_empty();
                let current_html = path_with_html_ext(current_rel_path);
                let mut ix_html = str_to_string(rel_path.as_str());
                ix_html.append("/index.html");
                let is_cur = str_eq(current_html.as_str(), ix_html.as_str());
                proof {
                    assert(ix_html@ =~= rel_path@ + "/index.html"@);
                }
                let mut s = str_to_string("<li");
                if is_open || is_cur {
                    s.append(" class=\"current-branch\"");
                }
                s.append("><details ");
                if is_open {
                    s.append("open");
                }
                s.append("><summary><a");
                if is_cur {
                    s.append(" class=\"current-summary\"");
                }
                s.append(" href=\"");
                s.append(link.as_str());
                s.append("\">");
                s.append(name.as_str());
                s.append("</a></summary><ul>");
                s.append(kids.as_str());
                s.append("</ul></details></li>");
                proof {
                    assert(s@ =~= spec_nav_html(*item, current_rel_path@, index@, is_root));
                }
                s
            }
        },
    }
}

/// Whether two segment vectors are equal element for element.
fn segs_eq(a: &Vec<String>, b: &Vec<String>) -> (r: bool)
    ensures
        r == (a.deep_view() == b.deep_view()),
{
    if a.len() != b.len() {
        proof {
            assert(a.deep_view().len() != b.deep_view().len());
        }
        return false;
    }
    let n = a.len();
    let mut i: usize = 0;
    while i < n
        invariant
            n == a@.len() == b@.len(),
            a.deep_view().len() == b.deep_view().len() == n,
            i <= n,
            forall|j: int| 0 <= j < i ==> a.deep_view()[j] == b.deep_view()[j],
        decreases n - i,
    {
        if !str_eq(a[i].as_str(), b[i].as_str()) {
            proof {
                assert(a.deep_view()[i as int] != b.deep_view()[i as int]);
            }
            return false;
        }
        proof {
            assert(a.deep_view()[i as int] == b.deep_view()[i as int]);
        }
        i = i + 1;
    }
    proof {
        assert(a.deep_view() =~= b.deep_view());
    }
    true
}

/// Builds the navigation tree for the current page and renders it: the markup
/// is that of a well-formed tree whose abstract form is exactly the site's
/// navigation tree, and whose leaves are all included documents.
pub fn generate_navigation_html(
    index: &PathIndex,
    store: &MetadataStore,
    current_rel_path: &str,
) -> (r: String)
    ensures
        exists|t: NavItem|
            {
                &&& nav_wf(t)
                &&& nav_view(t) == spec_nav_tree(index@, store@, current_rel_path@)
                &&& (forall|p: Seq<char>|
                    tree_has_leaf(t, p) ==> spec_nav_included(p, index@, store@))
                &&& r@ == spec_nav_html(t, current_rel_path@, index@, true)
            },
{
    let tree = build_nav_tree(index, store, current_rel_path);
    let r = nav_tree_to_html(&tree, current_rel_path, index, true);
    proof {
        assert({
            &&& nav_wf(tree)
            &&& nav_view(tree) == spec_nav_tree(index@, store@, current_rel_path@)
            &&& (forall|p: Seq<char>| tree_has_leaf(tree, p) ==> spec_nav_included(p, index@, store@))
            &&& r@ == spec_nav_html(tree, current_rel_path@, index@, true)
        });
    }
    r
}

/// Two navigation entries with the same sort text but different paths never
/// get the same composite key: the path tie-breaker keeps the order total.
pub proof fn lemma_nav_key_injective(
    p1: Seq<char>,
    m1: PageMetadata,
    p2: Seq<char>,
    m2: PageMetadata,
)
    requires
        spec_nav_sort(p1, m1) == spec_nav_sort(p2, m2),
        p1 != p2,
    ensures
        spec_nav_key(p1, m1) != spec_nav_key(p2, m2),
{
    let k1 = spec_nav_key(p1, m1);
    let k2 = spec_nav_key(p2, m2);
    let pre = lower_of(spec_nav_sort(p1, m1)) + "--"@;
    if k1 == k2 {
        assert(k1.len() == k2.len());
        assert(p1.len() == p2.len());
        assert(p1 =~= p2) by {
            assert forall|i: int| 0 <= i < p1.len() implies p1[i] == p2[i] by {
                assert(k1[pre.len() + i] == p1[i]);
                assert(k2[pre.len() + i] == p2[i]);
            }
        }
    }
}

/// Marking a directory's `index.md` with `exclude_from_nav` keeps every path
/// at or under that directory out of any tree that `build_nav_tree` returns.
pub proof fn lemma_nav_exclusion(
    tree: NavItem,
    dir: Seq<char>,
    p: Seq<char>,
    index: Seq<Seq<char>>,
    store: Map<Seq<char>, PageMetadata>,
)
    requires
        forall|q: Seq<char>| tree_has_leaf(tree, q) ==> spec_nav_included(q, index, store),
        index.contains(dir + "/index.md"@),
        spec_meta_of(store, dir + "/index.md"@).exclude_from_nav == Some(true),
        spec_path_under(p, dir),
    ensures
        !tree_has_leaf(tree, p),
{
    if tree_has_leaf(tree, p) {
        assert(spec_nav_included(p, index, store));
        let q = dir + "/index.md"@;
        let i = choose|i: int| 0 <= i < index.len() && index[i] == q;
        assert(spec_under_excluded(p, index, store)) by {
            assert(spec_ends_with(q, "/index.md"@)) by {
                assert(q.skip(q.len() - "/index.md"@.len()) =~= "/index.md"@);
            }
            assert(q.take(q.len() - "/index.md"@.len()) =~= dir);
            assert({
                let qq = index[i];
                &&& spec_ends_with(qq, "/index.md"@)
                &&& spec_meta_of(store, qq).exclude_from_nav == Some(true)
                &&& spec_path_under(p, qq.take(qq.len() - "/index.md"@.len()))
            });
        }
        assert(spec_should_skip(p, spec_meta_of(store, p), index, store));
    }
}


} // verus!
