//! Per-document metadata: the trailing fenced JSON block, its parsed schema,
//! and the store that holds one record per markdown document.

use vstd::prelude::*;

use crate::jsonio::{
    json_field, json_is_object, spec_json_field, spec_json_is_object, JsonField,
};
use crate::text::{
    skip_ws, spec_first_non_ws, spec_matches_at, str_eq, str_find_from, str_matches_at,
    str_to_string,
};

verus! {

/// The opening fence of a JSON metadata block.
pub open spec fn fence_json() -> Seq<char> {
    seq!['`', '`', '`', 'j', 's', 'o', 'n']
}

/// A closing fence.
pub open spec fn fence() -> Seq<char> {
    seq!['`', '`', '`']
}

/// Only whitespace from `i` to the end.
pub open spec fn spec_all_ws_from(s: Seq<char>, i: int) -> bool {
    spec_first_non_ws(s, i) == s.len()
}

/// A `}` at `k` closes the block: after it only whitespace, a closing fence,
/// and whitespace to the end of the file.
pub open spec fn spec_block_end_ok(s: Seq<char>, k: int) -> bool {
    &&& 0 <= k < s.len()
    &&& s[k] == '}'
    &&& spec_matches_at(s, fence(), spec_first_non_ws(s, k + 1))
    &&& spec_all_ws_from(s, spec_first_non_ws(s, k + 1) + 3)
}

/// A metadata block opens at `i` and its JSON member closes at `k`: the
/// opening fence, whitespace, `{`, the shortest stretch to a closing `}`
/// after which only the closing fence and whitespace remain.
pub open spec fn spec_block_at(s: Seq<char>, i: int, k: int) -> bool {
    &&& spec_matches_at(s, fence_json(), i)
    &&& ({
        let j = spec_first_non_ws(s, i + 7);
        &&& j < s.len()
        &&& s[j] == '{'
        &&& j < k
        &&& spec_block_end_ok(s, k)
        &&& forall|kk: int| j < kk < k ==> !spec_block_end_ok(s, kk)
    })
}

/// Some close position makes `i` a block start.
pub open spec fn spec_has_block_at(s: Seq<char>, i: int) -> bool {
    exists|k: int| spec_block_at(s, i, k)
}

/// The one trailing block of a document: the leftmost block start, the
/// position of its `{`, and the position of its closing `}`.
pub open spec fn spec_block_of(s: Seq<char>) -> Option<(int, int, int)> {
    if exists|i: int, k: int|
        spec_block_at(s, i, k) && (forall|ii: int| 0 <= ii < i ==> !spec_has_block_at(s, ii)) {
        let (i, k) = choose|i: int, k: int|
            spec_block_at(s, i, k) && (forall|ii: int| 0 <= ii < i ==> !spec_has_block_at(s, ii));
        Some((i, spec_first_non_ws(s, i + 7), k))
    } else {
        None
    }
}

/// The document with its trailing block stripped (unchanged when there is
/// none).
pub open spec fn spec_stripped(s: Seq<char>) -> Seq<char> {
    match spec_block_of(s) {
        Some((i, _, _)) => s.take(i),
        None => s,
    }
}

/// The JSON member text of the trailing block, braces included.
pub open spec fn spec_block_json(s: Seq<char>) -> Option<Seq<char>> {
    match spec_block_of(s) {
        Some((_, j, k)) => Some(s.subrange(j, k + 1)),
        None => None,
    }
}

/// The block position is unique: the start is leftmost and the close is the
/// shortest.
proof fn lemma_block_unique(s: Seq<char>, i1: int, k1: int, i2: int, k2: int)
    requires
        spec_block_at(s, i1, k1),
        forall|ii: int| 0 <= ii < i1 ==> !spec_has_block_at(s, ii),
        spec_block_at(s, i2, k2),
        forall|ii: int| 0 <= ii < i2 ==> !spec_has_block_at(s, ii),
    ensures
        i1 == i2,
        k1 == k2,
{
    if i1 < i2 {
        assert(spec_has_block_at(s, i1));
    }
    if i2 < i1 {
        assert(spec_has_block_at(s, i2));
    }
    let j = spec_first_non_ws(s, i1 + 7);
    if k1 < k2 {
        assert(!spec_block_end_ok(s, k1));
    }
    if k2 < k1 {
        assert(!spec_block_end_ok(s, k2));
    }
}

/// Locates the trailing fenced JSON block of a document, if any.
#[verifier::rlimit(60)]
pub fn find_trailing_json(s: &str) -> (r: Option<(usize, usize, usize)>)
    ensures
        match r {
            Some(t) => {
                &&& spec_block_of(s@) == Some((t.0 as int, t.1 as int, t.2 as int))
                &&& spec_block_at(s@, t.0 as int, t.2 as int)
                &&& t.1 == spec_first_non_ws(s@, t.0 + 7)
                &&& t.0 + 7 <= s@.len()
                &&& t.1 < t.2 < s@.len()
            },
            None => spec_block_of(s@) is None,
        },
{
    let slen = s.unicode_len();
    proof {
        reveal_strlit("```json");
        reveal_strlit("```");
        assert("```json"@ =~= fence_json());
        assert("```"@ =~= fence());
        assert(fence_json().len() == 7);
        assert(fence().len() == 3);
    }
    let mut from: usize = 0;
    loop
        invariant
            slen == s@.len(),
            forall|ii: int| 0 <= ii < from ==> !spec_has_block_at(s@, ii),
        decreases slen + 1 - from,
    {
        proof {
            reveal_strlit("```json");
            reveal_strlit("```");
            assert("```json"@ =~= fence_json());
            assert("```"@ =~= fence());
            assert(fence_json().len() == 7);
            assert(fence().len() == 3);
        }
        let found = str_find_from(s, "```json", from);
        match found {
            None => {
                proof {
                    assert forall|ii: int| 0 <= ii implies !spec_has_block_at(s@, ii) by {
                        if ii >= from {
                            assert(!spec_matches_at(s@, "```json"@, ii));
                            assert(!spec_matches_at(s@, fence_json(), ii));
                        }
                    }
                    if spec_block_of(s@) is Some {
                        let (i, k) = choose|i: int, k: int|
                            spec_block_at(s@, i, k) && (forall|ii: int|
                                0 <= ii < i ==> !spec_has_block_at(s@, ii));
                        assert(spec_has_block_at(s@, i));
                    }
                }
                return None;
            },
            Some(pos) => {
                proof {
                    assert(spec_matches_at(s@, "```json"@, pos as int));
                    assert(spec_matches_at(s@, fence_json(), pos as int));
                    assert(pos + 7 <= slen);
                    assert forall|ii: int| 0 <= ii < pos implies !spec_has_block_at(s@, ii) by {
                        if ii >= from {
                            assert(!spec_matches_at(s@, "```json"@, ii));
                            assert(!spec_matches_at(s@, fence_json(), ii));
                        }
                    }
                }
                let j = skip_ws(s, pos + 7);
                if j < slen && s.get_char(j) == '{' {
                    let mut k = j + 1;
                    while k < slen
                        invariant
                            slen == s@.len(),
                            j < k <= slen,
                            pos + 7 <= slen,
                            j == spec_first_non_ws(s@, pos + 7),
                            j < slen && s@[j as int] == '{',
                            spec_matches_at(s@, fence_json(), pos as int),
                            forall|ii: int| 0 <= ii < pos ==> !spec_has_block_at(s@, ii),
                            forall|kk: int| j < kk < k ==> !spec_block_end_ok(s@, kk),
                        decreases slen - k,
                    {
                        proof {
                            reveal_strlit("```json");
                            reveal_strlit("```");
                            assert("```json"@ =~= fence_json());
                            assert("```"@ =~= fence());
                            assert(fence_json().len() == 7);
                            assert(fence().len() == 3);
                        }
                        if s.get_char(k) == '}' {
                            let m = skip_ws(s, k + 1);
                            let fence_ok = str_matches_at(s, "```", m);
                            if fence_ok {
                                proof {
                                    assert(spec_matches_at(s@, "```"@, m as int));
                                    assert(spec_matches_at(s@, fence(), m as int));
                                    assert(m + 3 <= slen);
                                }
                                let e = skip_ws(s, m + 3);
                                if e == slen {
                                    proof {
                                        assert(spec_block_end_ok(s@, k as int));
                                        assert(spec_block_at(s@, pos as int, k as int));
                                        let wi = pos as int;
                                        let wk = k as int;
                                        assert(spec_block_at(s@, wi, wk) && (forall|ii: int|
                                            0 <= ii < wi ==> !spec_has_block_at(s@, ii)));
                                        let (ci, ck) = choose|ci: int, ck: int|
                                            spec_block_at(s@, ci, ck) && (forall|ii: int|
                                                0 <= ii < ci ==> !spec_has_block_at(s@, ii));
                                        lemma_block_unique(s@, wi, wk, ci, ck);
                                    }
                                    return Some((pos, j, k));
                                }
                                proof {
                                    assert(!spec_all_ws_from(s@, m + 3));
                                    assert(!spec_block_end_ok(s@, k as int));
                                }
                            } else {
                                proof {
                                    assert(!spec_matches_at(s@, "```"@, m as int));
                                    assert(!spec_matches_at(s@, fence(), m as int));
                                    assert(!spec_block_end_ok(s@, k as int));
                                }
                            }
                        } else {
                            proof {
                                assert(!spec_block_end_ok(s@, k as int));
                            }
                        }
                        k = k + 1;
                    }
                    proof {
                        assert forall|kk: int| !spec_block_at(s@, pos as int, kk) by {
                            if spec_block_at(s@, pos as int, kk) {
                                assert(spec_block_end_ok(s@, kk));
                                assert(j < kk < s@.len());
                            }
                        }
                        assert(!spec_has_block_at(s@, pos as int));
                    }
                } else {
                    proof {
                        assert forall|kk: int| !spec_block_at(s@, pos as int, kk) by {
                            if spec_block_at(s@, pos as int, kk) {
                                assert(spec_first_non_ws(s@, pos + 7) < s@.len());
                                assert(s@[spec_first_non_ws(s@, pos + 7)] == '{');
                            }
                        }
                        assert(!spec_has_block_at(s@, pos as int));
                    }
                }
                from = pos + 1;
            },
        }
    }
}

/// Splits a document into its body and the JSON text of its trailing block:
/// `(body unchanged, None)` when there is no block, else the body with the
/// block stripped and the `{...}` member text.
pub fn extract_trailing_json(content: &str) -> (r: (String, Option<String>))
    ensures
        r.0@ == spec_stripped(content@),
        match r.1 {
            Some(j) => spec_block_json(content@) == Some(j@),
            None => spec_block_json(content@) is None,
        },
{
    let n = content.unicode_len();
    match find_trailing_json(content) {
        Some((i, j, k)) => {
            proof {
                assert(k < n);
            }
            let body = content.substring_char(0, i);
            let json = content.substring_char(j, k + 1);
            proof {
                assert(body@ =~= content@.take(i as int));
                assert(json@ =~= content@.subrange(j as int, k + 1));
            }
            (str_to_string(body), Some(str_to_string(json)))
        },
        None => (str_to_string(content), None),
    }
}

/// The metadata record of one document. All members are optional in the JSON
/// block; `computed_title` is filled by the metadata pass.
#[derive(Debug, Clone)]
pub struct PageMetadata {
    pub page_title: Option<String>,
    pub nav_title: Option<String>,
    pub avoid_generation: Option<bool>,
    pub exclude_from_nav: Option<bool>,
    pub keep_json_in_content: Option<bool>,
    pub sort_key: Option<String>,
    pub include_in_sitemap: Option<bool>,
    pub sitemap_changefreq: Option<String>,
    pub sitemap_priority: Option<String>,
    pub computed_title: Option<String>,
}

/// The all-absent record.
pub open spec fn spec_default_metadata() -> PageMetadata {
    PageMetadata {
        page_title: None,
        nav_title: None,
        avoid_generation: None,
        exclude_from_nav: None,
        keep_json_in_content: None,
        sort_key: None,
        include_in_sitemap: None,
        sitemap_changefreq: None,
        sitemap_priority: None,
        computed_title: None,
    }
}

impl Default for PageMetadata {
    /// The record with every member absent.
    fn default() -> (r: Self)
        ensures
            r == spec_default_metadata(),
    {
        PageMetadata {
            page_title: None,
            nav_title: None,
            avoid_generation: None,
            exclude_from_nav: None,
            keep_json_in_content: None,
            sort_key: None,
            include_in_sitemap: None,
            sitemap_changefreq: None,
            sitemap_priority: None,
            computed_title: None,
        }
    }
}

/// A string member: may be absent or null, else must be a JSON string.
pub open spec fn spec_str_field_ok(code: nat, key: Seq<char>) -> bool {
    match spec_json_field(code, key) {
        JsonField::Missing => true,
        JsonField::Null => true,
        JsonField::Text(_) => true,
        _ => false,
    }
}

/// The value of a string member.
pub open spec fn spec_str_field(code: nat, key: Seq<char>) -> Option<String> {
    match spec_json_field(code, key) {
        JsonField::Text(s) => Some(s),
        _ => None,
    }
}

/// A boolean member: may be absent or null, else must be a JSON boolean.
pub open spec fn spec_bool_field_ok(code: nat, key: Seq<char>) -> bool {
    match spec_json_field(code, key) {
        JsonField::Missing => true,
        JsonField::Null => true,
        JsonField::Flag(_) => true,
        _ => false,
    }
}

/// The value of a boolean member.
pub open spec fn spec_bool_field(code: nat, key: Seq<char>) -> Option<bool> {
    match spec_json_field(code, key) {
        JsonField::Flag(b) => Some(b),
        _ => None,
    }
}

/// A number member: may be absent or null, else must be a JSON number.
pub open spec fn spec_num_field_ok(code: nat, key: Seq<char>) -> bool {
    match spec_json_field(code, key) {
        JsonField::Missing => true,
        JsonField::Null => true,
        JsonField::Number(_) => true,
        _ => false,
    }
}

/// The decimal text of a number member.
pub open spec fn spec_num_field(code: nat, key: Seq<char>) -> Option<String> {
    match spec_json_field(code, key) {
        JsonField::Number(s) => Some(s),
        _ => None,
    }
}

/// The whole schema is respected: the value is an object and every known
/// member has its type.
pub open spec fn spec_metadata_ok(code: nat) -> bool {
    &&& spec_json_is_object(code)
    &&& spec_str_field_ok(code, "page_title"@)
    &&& spec_str_field_ok(code, "nav_title"@)
    &&& spec_bool_field_ok(code, "avoid_generation"@)
    &&& spec_bool_field_ok(code, "exclude_from_nav"@)
    &&& spec_bool_field_ok(code, "keep_json_in_content"@)
    &&& spec_str_field_ok(code, "sort_key"@)
    &&& spec_bool_field_ok(code, "include_in_sitemap"@)
    &&& spec_str_field_ok(code, "sitemap_changefreq"@)
    &&& spec_num_field_ok(code, "sitemap_priority"@)
    &&& spec_str_field_ok(code, "computed_title"@)
}

/// The record a well-typed metadata object denotes.
pub open spec fn spec_metadata_of(code: nat) -> PageMetadata {
    PageMetadata {
        page_title: spec_str_field(code, "page_title"@),
        nav_title: spec_str_field(code, "nav_title"@),
        avoid_generation: spec_bool_field(code, "avoid_generation"@),
        exclude_from_nav: spec_bool_field(code, "exclude_from_nav"@),
        keep_json_in_content: spec_bool_field(code, "keep_json_in_content"@),
        sort_key: spec_str_field(code, "sort_key"@),
        include_in_sitemap: spec_bool_field(code, "include_in_sitemap"@),
        sitemap_changefreq: spec_str_field(code, "sitemap_changefreq"@),
        sitemap_priority: spec_num_field(code, "sitemap_priority"@),
        computed_title: spec_str_field(code, "computed_title"@),
    }
}

/// Reads a string member off a parsed value.
fn read_str_field(v: &serde_json::Value, key: &str) -> (r: Result<Option<String>, ()>)
    ensures
        r is Ok <==> spec_str_field_ok(crate::jsonio::json_code(*v), key@),
        r matches Ok(o) ==> o == spec_str_field(crate::jsonio::json_code(*v), key@),
{
    match json_field(v, key) {
        JsonField::Missing => Ok(None),
        JsonField::Null => Ok(None),
        JsonField::Text(s) => Ok(Some(s)),
        _ => Err(()),
    }
}

/// Reads a boolean member off a parsed value.
fn read_bool_field(v: &serde_json::Value, key: &str) -> (r: Result<Option<bool>, ()>)
    ensures
        r is Ok <==> spec_bool_field_ok(crate::jsonio::json_code(*v), key@),
        r matches Ok(o) ==> o == spec_bool_field(crate::jsonio::json_code(*v), key@),
{
    match json_field(v, key) {
        JsonField::Missing => Ok(None),
        JsonField::Null => Ok(None),
        JsonField::Flag(b) => Ok(Some(b)),
        _ => Err(()),
    }
}

/// Reads a number member off a parsed value, as its decimal text.
fn read_num_field(v: &serde_json::Value, key: &str) -> (r: Result<Option<String>, ()>)
    ensures
        r is Ok <==> spec_num_field_ok(crate::jsonio::json_code(*v), key@),
        r matches Ok(o) ==> o == spec_num_field(crate::jsonio::json_code(*v), key@),
{
    match json_field(v, key) {
        JsonField::Missing => Ok(None),
        JsonField::Null => Ok(None),
        JsonField::Number(s) => Ok(Some(s)),
        _ => Err(()),
    }
}

/// Interprets a parsed JSON value against the metadata schema: `Ok` exactly
/// when the value is an object whose known members carry their expected
/// types; unknown members are ignored.
pub fn parse_page_metadata(v: &serde_json::Value) -> (r: Result<PageMetadata, ()>)
    ensures
        r is Ok <==> spec_metadata_ok(crate::jsonio::json_code(*v)),
        r matches Ok(m) ==> m == spec_metadata_of(crate::jsonio::json_code(*v)),
{
    if !json_is_object(v) {
        return Err(());
    }
    let page_title = match read_str_field(v, "page_title") {
        Ok(o) => o,
        Err(_) => { return Err(()) },
    };
    let nav_title = match read_str_field(v, "nav_title") {
        Ok(o) => o,
        Err(_) => { return Err(()) },
    };
    let avoid_generation = match read_bool_field(v, "avoid_generation") {
        Ok(o) => o,
        Err(_) => { return Err(()) },
    };
    let exclude_from_nav = match read_bool_field(v, "exclude_from_nav") {
        Ok(o) => o,
        Err(_) => { return Err(()) },
    };
    let keep_json_in_content = match read_bool_field(v, "keep_json_in_content") {
        Ok(o) => o,
        Err(_) => { return Err(()) },
    };
    let sort_key = match read_str_field(v, "sort_key") {
        Ok(o) => o,
        Err(_) => { return Err(()) },
    };
    let include_in_sitemap = match read_bool_field(v, "include_in_sitemap") {
        Ok(o) => o,
        Err(_) => { return Err(()) },
    };
    let sitemap_changefreq = match read_str_field(v, "sitemap_changefreq") {
        Ok(o) => o,
        Err(_) => { return Err(()) },
    };
    let sitemap_priority = match read_num_field(v, "sitemap_priority") {
        Ok(o) => o,
        Err(_) => { return Err(()) },
    };
    let computed_title = match read_str_field(v, "computed_title") {
        Ok(o) => o,
        Err(_) => { return Err(()) },
    };
    Ok(
        PageMetadata {
            page_title,
            nav_title,
            avoid_generation,
            exclude_from_nav,
            keep_json_in_content,
            sort_key,
            include_in_sitemap,
            sitemap_changefreq,
            sitemap_priority,
            computed_title,
        },
    )
}

/// The map a list of records denotes; a later record for the same path wins.
pub open spec fn spec_store_map(entries: Seq<(String, PageMetadata)>) -> Map<
    Seq<char>,
    PageMetadata,
>
    decreases entries.len(),
{
    if entries.len() == 0 {
        Map::empty()
    } else {
        spec_store_map(entries.drop_last()).insert(entries.last().0@, entries.last().1)
    }
}

/// One metadata record per markdown document, keyed by its relative path.
pub struct MetadataStore {
    entries: Vec<(String, PageMetadata)>,
}

impl View for MetadataStore {
    type V = Map<Seq<char>, PageMetadata>;

    closed spec fn view(&self) -> Map<Seq<char>, PageMetadata> {
        spec_store_map(self.entries@)
    }
}

impl MetadataStore {
    /// An empty store.
    pub fn new() -> (r: Self)
        ensures
            r@ == Map::<Seq<char>, PageMetadata>::empty(),
    {
        MetadataStore { entries: Vec::new() }
    }

    /// Records the metadata of one document.
    pub fn insert(&mut self, path: String, meta: PageMetadata)
        ensures
            final(self)@ == old(self)@.insert(path@, meta),
    {
        let ghost ov = self.entries@;
        let ghost pv = path@;
        let ghost mv = meta;
        self.entries.push((path, meta));
        proof {
            assert(self.entries@.drop_last() =~= ov);
            assert(self.entries@.last().0@ == pv);
            assert(self.entries@.last().1 == mv);
            assert(spec_store_map(self.entries@) == spec_store_map(ov).insert(pv, mv));
        }
    }

    /// Looks a document's record up.
    pub fn get(&self, path: &str) -> (r: Option<&PageMetadata>)
        ensures
            match r {
                Some(m) => self@.contains_key(path@) && *m == self@[path@],
                None => !self@.contains_key(path@),
            },
    {
        let n = self.entries.len();
        proof {
            assert(self.entries@.take(n as int) =~= self.entries@);
        }
        let mut i = n;
        while i > 0
            invariant
                n == self.entries@.len(),
                i <= n,
                self@.contains_key(path@) == spec_store_map(
                    self.entries@.take(i as int),
                ).contains_key(path@),
                self@.contains_key(path@) ==> self@[path@] == spec_store_map(
                    self.entries@.take(i as int),
                )[path@],
            decreases i,
        {
            i = i - 1;
            proof {
                assert(self.entries@.take(i + 1).drop_last() =~= self.entries@.take(i as int));
                assert(self.entries@.take(i + 1).last() == self.entries@[i as int]);
            }
            if str_eq(self.entries[i].0.as_str(), path) {
                proof {
                    assert(spec_store_map(self.entries@.take(i + 1)).contains_key(path@));
                    assert(spec_store_map(self.entries@.take(i + 1))[path@] == self.entries@[
                        i as int].1);
                }
                return Some(&self.entries[i].1);
            }
        }
        proof {
            assert(self.entries@.take(0) =~= Seq::<(String, PageMetadata)>::empty());
        }
        None
    }
}

} // verus!
