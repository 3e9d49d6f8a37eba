//! Page assembly: template token substitution, the canonical URL, and the
//! breadcrumb trail.

use vstd::prelude::*;

use crate::metadata::MetadataStore;
use crate::metadata::PageMetadata;
use crate::paths::{
    lemma_split_len, normalize_pieces, seg_stem, spec_join, spec_segments_of, spec_split,
    spec_stem, split_path,
};
use crate::text::{spec_ends_with, spec_replace, replace_all, str_ends_with, str_eq, str_to_string};

verus! {

/// The template with every placeholder token replaced: the title (also as the
/// header title), the source path, the dates, the navigation and breadcrumb
/// markup, the content, and the canonical URL.
pub open spec fn spec_format_html_page(
    title: Seq<char>,
    rel_path_str: Seq<char>,
    date_created: Seq<char>,
    last_modified: Seq<char>,
    nav_html: Seq<char>,
    content: Seq<char>,
    template: Seq<char>,
    breadcrumb_html: Seq<char>,
    canonical_url: Seq<char>,
) -> Seq<char> {
    let s = spec_replace(template, "{{ title }}"@, title);
    let s = spec_replace(s, "{{ header_title }}"@, title);
    let s = spec_replace(s, "{{ source_path }}"@, rel_path_str);
    let s = spec_replace(s, "{{ date_created }}"@, date_created);
    let s = spec_replace(s, "{{ last_modified }}"@, last_modified);
    let s = spec_replace(s, "{{ nav_html }}"@, nav_html);
    let s = spec_replace(s, "{{ content }}"@, content);
    let s = spec_replace(s, "{{ breadcrumb_html }}"@, breadcrumb_html);
    spec_replace(s, "{{ canonical_url }}"@, canonical_url)
}

/// Substitutes every placeholder token of the template.
pub fn format_html_page(
    title: &str,
    rel_path_str: &str,
    date_created: &str,
    last_modified: &str,
    nav_html: &str,
    content: &str,
    template: &str,
    breadcrumb_html: &str,
    canonical_url: &str,
) -> (r: String)
    ensures
        r@ == spec_format_html_page(
            title@,
            rel_path_str@,
            date_created@,
            last_modified@,
            nav_html@,
            content@,
            template@,
            breadcrumb_html@,
            canonical_url@,
        ),
{
    proof {
        reveal_strlit("{{ title }}");
        reveal_strlit("{{ header_title }}");
        reveal_strlit("{{ source_path }}");
        reveal_strlit("{{ date_created }}");
        reveal_strlit("{{ last_modified }}");
        reveal_strlit("{{ nav_html }}");
        reveal_strlit("{{ content }}");
        reveal_strlit("{{ breadcrumb_html }}");
        reveal_strlit("{{ canonical_url }}");
    }
    let s = replace_all(template, "{{ title }}", title);
    let s = replace_all(s.as_str(), "{{ header_title }}", title);
    let s = replace_all(s.as_str(), "{{ source_path }}", rel_path_str);
    let s = replace_all(s.as_str(), "{{ date_created }}", date_created);
    let s = replace_all(s.as_str(), "{{ last_modified }}", last_modified);
    let s = replace_all(s.as_str(), "{{ nav_html }}", nav_html);
    let s = replace_all(s.as_str(), "{{ content }}", content);
    let s = replace_all(s.as_str(), "{{ breadcrumb_html }}", breadcrumb_html);
    replace_all(s.as_str(), "{{ canonical_url }}", canonical_url)
}

/// The base URL without its trailing slashes.
pub open spec fn spec_trim_end_slashes(s: Seq<char>) -> Seq<char>
    decreases s.len(),
{
    if s.len() > 0 && s.last() == '/' {
        spec_trim_end_slashes(s.drop_last())
    } else {
        s
    }
}

/// Removes trailing slashes.
fn trim_end_slashes(s: &str) -> (r: String)
    ensures
        r@ == spec_trim_end_slashes(s@),
{
    let n = s.unicode_len();
    let mut b = n;
    proof {
        assert(s@.take(n as int) =~= s@);
    }
    while b > 0 && s.get_char(b - 1) == '/'
        invariant
            n == s@.len(),
            b <= n,
            spec_trim_end_slashes(s@) == spec_trim_end_slashes(s@.take(b as int)),
        decreases b,
    {
        proof {
            assert(s@.take(b as int).last() == s@[b - 1]);
            assert(s@.take(b as int).drop_last() =~= s@.take(b - 1));
        }
        b = b - 1;
    }
    proof {
        if b == 0 {
            assert(s@.take(0) =~= Seq::<char>::empty());
        } else {
            assert(s@.take(b as int).last() == s@[b - 1]);
        }
    }
    let t = s.substring_char(0, b);
    proof {
        assert(t@ =~= s@.take(b as int));
    }
    str_to_string(t)
}

/// The canonical URL of a page: the site root for the root index, the
/// directory URL for a directory's index, else the page's `.html` address.
pub open spec fn spec_canonical_url(p: Seq<char>, base_url: Seq<char>) -> Seq<char> {
    let b = spec_trim_end_slashes(base_url);
    if p == "index.md"@ {
        b + "/"@
    } else if spec_ends_with(p, "/index.md"@) {
        b + "/"@ + p.take(p.len() - "/index.md"@.len()) + "/"@
    } else if p.len() == 0 {
        b + "/"@
    } else {
        b + "/"@ + crate::nav::spec_html_path(p)
    }
}

/// Builds the canonical URL of a page.
pub fn generate_canonical_url(rel_path: &str, base_url: &str) -> (r: String)
    ensures
        r@ == spec_canonical_url(rel_path@, base_url@),
{
    let b = trim_end_slashes(base_url);
    if str_eq(rel_path, "index.md") {
        let mut s = str_to_string(b.as_str());
        s.append("/");
        proof {
            assert(s@ =~= spec_trim_end_slashes(base_url@) + "/"@);
        }
        return s;
    }
    if str_ends_with(rel_path, "/index.md") {
        proof {
            reveal_strlit("/index.md");
            assert("/index.md"@.len() == 9);
        }
        let n = rel_path.unicode_len();
        let parent = rel_path.substring_char(0, n - 9);
        proof {
            assert(parent@ =~= rel_path@.take(rel_path@.len() - "/index.md"@.len()));
        }
        let mut s = str_to_string(b.as_str());
        s.append("/");
        s.append(parent);
        s.append("/");
        proof {
            assert(s@ =~= spec_trim_end_slashes(base_url@) + "/"@ + rel_path@.take(
                rel_path@.len() - "/index.md"@.len(),
            ) + "/"@);
        }
        return s;
    }
    if rel_path.is_empty() {
        let mut s = str_to_string(b.as_str());
        s.append("/");
        proof {
            assert(s@ =~= spec_trim_end_slashes(base_url@) + "/"@);
        }
        return s;
    }
    let html = crate::nav::path_with_html_ext(rel_path);
    let mut s = str_to_string(b.as_str());
    s.append("/");
    s.append(html.as_str());
    proof {
        assert(s@ =~= spec_trim_end_slashes(base_url@) + "/"@ + crate::nav::spec_html_path(
            rel_path@,
        ));
    }
    s
}

/// The preferred title of a stored document: its `nav_title`, else its
/// `computed_title`.
pub open spec fn spec_title_pref(store: Map<Seq<char>, PageMetadata>, key: Seq<char>) -> Option<
    Seq<char>,
> {
    if store.contains_key(key) {
        let m = store[key];
        match m.nav_title {
            Some(t) => Some(t@),
            None => match m.computed_title {
                Some(t) => Some(t@),
                None => None,
            },
        }
    } else {
        None
    }
}

/// Looks up the preferred title of a stored document.
fn title_pref(store: &MetadataStore, key: &str) -> (r: Option<String>)
    ensures
        match r {
            Some(t) => spec_title_pref(store@, key@) == Some(t@),
            None => spec_title_pref(store@, key@) is None,
        },
{
    match store.get(key) {
        None => None,
        Some(m) => match &m.nav_title {
            Some(t) => Some(t.clone()),
            None => match &m.computed_title {
                Some(t) => Some(t.clone()),
                None => None,
            },
        },
    }
}

/// The home crumb's text: the root index's preferred title, else `Home`.
pub open spec fn spec_home_title(store: Map<Seq<char>, PageMetadata>) -> Seq<char> {
    match spec_title_pref(store, "index.md"@) {
        Some(t) => t,
        None => "Home"@,
    }
}

/// The display text of the crumb for the `i`-th component of the trail.
pub open spec fn spec_crumb(
    p: Seq<char>,
    store: Map<Seq<char>, PageMetadata>,
    comps: Seq<Seq<char>>,
    i: int,
    count: int,
    is_index: bool,
) -> Seq<char> {
    let cur = spec_join(comps.take(i + 1));
    if i == count - 1 {
        let display = if is_index {
            match spec_title_pref(store, cur + "/index.md"@) {
                Some(t) => t,
                None => comps[i],
            }
        } else {
            let md_path = spec_join(comps.take(i + 1).update(i, spec_stem(comps[i]) + ".md"@));
            match spec_title_pref(store, md_path) {
                Some(t) => t,
                None => spec_stem(spec_split(p).last()),
            }
        };
        "<span class=\"breadcrumb-current\">"@ + display + "</span>"@
    } else {
        let display = match spec_title_pref(store, cur + "/index.md"@) {
            Some(t) => t,
            None => comps[i],
        };
        "<a href=\"/"@ + cur + "/\">"@ + display + "</a>"@
    }
}

/// Crumbs joined with the separator.
pub open spec fn spec_crumb_join(v: Seq<Seq<char>>) -> Seq<char>
    decreases v.len(),
{
    if v.len() == 0 {
        seq![]
    } else if v.len() == 1 {
        v[0]
    } else {
        v[0] + " \u{203a} "@ + spec_crumb_join(v.drop_first())
    }
}

/// The breadcrumb markup of a page: the home link, one link per ancestor
/// directory, and the current page's name; a directory's index stands for the
/// directory itself.
pub open spec fn spec_breadcrumb(p: Seq<char>, store: Map<Seq<char>, PageMetadata>) -> Seq<char> {
    let home = spec_home_title(store);
    let comps = spec_segments_of(p);
    if comps.len() == 0 {
        "<nav class=\"breadcrumb\"><a href=\"/\">"@ + home + "</a></nav>"@
    } else {
        let is_index = spec_split(p).last() == "index.md"@;
        let count = if is_index {
            comps.len() - 1
        } else {
            comps.len() as int
        };
        let crumbs = seq!["<a href=\"/\">"@ + home + "</a>"@] + Seq::new(
            count as nat,
            |i: int| spec_crumb(p, store, comps, i, count, is_index),
        );
        "<nav class=\"breadcrumb\">"@ + spec_crumb_join(crumbs) + "</nav>"@
    }
}

/// Joining after appending one more crumb.
proof fn lemma_crumb_join_push(v: Seq<Seq<char>>, x: Seq<char>)
    ensures
        spec_crumb_join(v.push(x)) == if v.len() == 0 {
            x
        } else {
            spec_crumb_join(v) + " \u{203a} "@ + x
        },
    decreases v.len(),
{
    if v.len() == 0 {
        assert(v.push(x)[0] =~= x);
        assert(v.push(x).len() == 1);
    } else {
        assert(v.push(x).drop_first() =~= v.drop_first().push(x));
        lemma_crumb_join_push(v.drop_first(), x);
        if v.len() == 1 {
            assert(spec_crumb_join(v.push(x)) == v[0] + " \u{203a} "@ + x);
        } else {
            assert(spec_crumb_join(v.push(x)) == v[0] + " \u{203a} "@ + (spec_crumb_join(
                v.drop_first(),
            ) + " \u{203a} "@ + x));
            assert(v[0] + " \u{203a} "@ + (spec_crumb_join(v.drop_first()) + " \u{203a} "@ + x)
                =~= (v[0] + " \u{203a} "@ + spec_crumb_join(v.drop_first())) + " \u{203a} "@ + x);
        }
    }
}

/// Builds the breadcrumb markup of a page.
pub fn generate_breadcrumb_html(rel_path: &str, store: &MetadataStore) -> (r: String)
    ensures
        r@ == spec_breadcrumb(rel_path@, store@),
{
    let home: String = match title_pref(store, "index.md") {
        Some(t) => t,
        None => str_to_string("Home"),
    };
    proof {
        assert(home@ == spec_home_title(store@));
    }
    let comps = normalize_pieces(split_path(rel_path));
    let count_all = comps.len();
    if count_all == 0 {
        let mut s = str_to_string("<nav class=\"breadcrumb\"><a href=\"/\">");
        s.append(home.as_str());
        s.append("</a></nav>");
        proof {
            assert(s@ =~= "<nav class=\"breadcrumb\"><a href=\"/\">"@ + spec_home_title(store@)
                + "</a></nav>"@);
        }
        return s;
    }
    let raw = split_path(rel_path);
    let rn = raw.len();
    proof {
        assert(raw.deep_view().last() == raw[rn - 1]@);
    }
    let is_index = str_eq(raw[rn - 1].as_str(), "index.md");
    let count = if is_index {
        count_all - 1
    } else {
        count_all
    };
    let ghost comps_v = comps.deep_view();
    let ghost crumbs_spec = seq!["<a href=\"/\">"@ + spec_home_title(store@) + "</a>"@]
        + Seq::new(
        count as nat,
        |i: int| spec_crumb(rel_path@, store@, comps_v, i, count as int, is_index),
    );
    let mut joined = str_to_string("<a href=\"/\">");
    joined.append(home.as_str());
    joined.append("</a>");
    proof {
        assert(joined@ =~= crumbs_spec[0]);
        assert(crumbs_spec.take(1) =~= seq![crumbs_spec[0]]);
        assert(spec_crumb_join(crumbs_spec.take(1)) == crumbs_spec[0]);
    }
    let mut cur = String::new();
    let mut i: usize = 0;
    while i < count
        invariant
            count <= count_all == comps.len(),
            comps_v == comps.deep_view(),
            rn == raw.len() && 1 <= rn,
            raw.deep_view() == spec_split(rel_path@),
            raw.deep_view().last() == raw@[rn - 1]@,
            crumbs_spec.len() == count + 1,
            i <= count,
            cur@ == spec_join(comps_v.take(i as int)),
            joined@ == spec_crumb_join(crumbs_spec.take(i + 1)),
            crumbs_spec == seq!["<a href=\"/\">"@ + spec_home_title(store@) + "</a>"@]
                + Seq::new(
                count as nat,
                |k: int| spec_crumb(rel_path@, store@, comps_v, k, count as int, is_index),
            ),
        decreases count - i,
    {
        if i > 0 {
            cur.append("/");
        }
        cur.append(comps[i].as_str());
        proof {
            reveal_strlit("/");
            assert("/"@ =~= seq!['/']);
            assert(comps_v.take(i + 1) =~= comps_v.take(i as int).push(comps_v[i as int]));
            crate::paths::lemma_join_push(comps_v.take(i as int), comps_v[i as int]);
            assert(comps_v.take(i as int).len() == i);
            assert(comps_v[i as int] == comps[i as int]@);
            assert(cur@ == spec_join(comps_v.take(i + 1)));
        }
        let crumb: String = if i == count - 1 {
            let display: String = if is_index {
                let mut key = str_to_string(cur.as_str());
                key.append("/index.md");
                proof {
                    assert(key@ =~= cur@ + "/index.md"@);
                }
                match title_pref(store, key.as_str()) {
                    Some(t) => t,
                    None => str_to_string(comps[i].as_str()),
                }
            } else {
                let mut md_segs: Vec<String> = Vec::new();
                let mut k: usize = 0;
                while k < i + 1
                    invariant
                        i < count <= comps.len(),
                        comps_v == comps.deep_view(),
                        k <= i + 1,
                        md_segs.deep_view() == comps_v.take(k as int),
                    decreases i + 1 - k,
                {
                    let ghost before = md_segs.deep_view();
                    md_segs.push(str_to_string(comps[k].as_str()));
                    proof {
                        assert(md_segs.deep_view() =~= before.push(comps_v[k as int]));
                        assert(before.push(comps_v[k as int]) =~= comps_v.take(k + 1));
                    }
                    k = k + 1;
                }
                let mut stem_md = seg_stem(comps[i].as_str());
                stem_md.append(".md");
                proof {
                    reveal_strlit(".md");
                    assert(stem_md@ =~= spec_stem(comps_v[i as int]) + ".md"@);
                }
                let ghost before = md_segs.deep_view();
                let _old_last = md_segs.pop();
                md_segs.push(stem_md);
                proof {
                    assert(md_segs.deep_view() =~= comps_v.take(i + 1).update(
                        i as int,
                        spec_stem(comps_v[i as int]) + ".md"@,
                    ));
                }
                let md_path = crate::paths::join_path(&md_segs);
                match title_pref(store, md_path.as_str()) {
                    Some(t) => t,
                    None => {
                        proof {
                            lemma_split_len(rel_path@);
                        }
                        let st = seg_stem(raw[rn - 1].as_str());
                        proof {
                            assert(st@ == spec_stem(spec_split(rel_path@).last()));
                        }
                        st
                    },
                }
            };
            let mut s = str_to_string("<span class=\"breadcrumb-current\">");
            s.append(display.as_str());
            s.append("</span>");
            proof {
                assert(s@ =~= "<span class=\"breadcrumb-current\">"@ + display@ + "</span>"@);
                assert(s@ == spec_crumb(
                    rel_path@,
                    store@,
                    comps_v,
                    i as int,
                    count as int,
                    is_index,
                ));
            }
            s
        } else {
            let mut key = str_to_string(cur.as_str());
            key.append("/index.md");
            proof {
                assert(key@ =~= cur@ + "/index.md"@);
            }
            let display: String = match title_pref(store, key.as_str()) {
                Some(t) => t,
                None => str_to_string(comps[i].as_str()),
            };
            let mut s = str_to_string("<a href=\"/");
            s.append(cur.as_str());
            s.append("/\">");
            s.append(display.as_str());
            s.append("</a>");
            proof {
                assert(s@ =~= "<a href=\"/"@ + cur@ + "/\">"@ + display@ + "</a>"@);
                assert(s@ == spec_crumb(
                    rel_path@,
                    store@,
                    comps_v,
                    i as int,
                    count as int,
                    is_index,
                ));
            }
            s
        };
        joined.append(" \u{203a} ");
        joined.append(crumb.as_str());
        proof {
            assert(crumbs_spec[i + 1] == crumb@);
            assert(crumbs_spec.take(i + 2) =~= crumbs_spec.take(i + 1).push(crumbs_spec[i + 1]));
            lemma_crumb_join_push(crumbs_spec.take(i + 1), crumbs_spec[i + 1]);
            assert(crumbs_spec.take(i + 1).len() == i + 1);
        }
        i = i + 1;
    }
    let mut out = str_to_string("<nav class=\"breadcrumb\">");
    out.append(joined.as_str());
    out.append("</nav>");
    proof {
        assert(crumbs_spec.take(count + 1) =~= crumbs_spec);
        assert(out@ =~= "<nav class=\"breadcrumb\">"@ + spec_crumb_join(crumbs_spec) + "</nav>"@);
    }
    out
}


/// The leftmost bare-URL match of the pattern `https?://[^\s<]+` at or after
/// a position, as character bounds: a function of the text and the position.
pub uninterp spec fn spec_next_url(s: Seq<char>, from: int) -> Option<(int, int)>;

/// The leftmost anchor-element match of the pattern `<a\b[^>]*>.*?</a>` at or
/// after a position, as character bounds: a function of the text and the
/// position.
pub uninterp spec fn spec_next_anchor(s: Seq<char>, from: int) -> Option<(int, int)>;

/// Relies on regex find from an offset with the bare-URL pattern; byte
/// offsets are converted to character positions. The constant pattern is
/// valid.
#[verifier::external_body]
fn find_url(s: &str, from: usize) -> (r: Option<(usize, usize)>)
    requires
        from <= s@.len(),
    ensures
        match r {
            Some(m) => spec_next_url(s@, from as int) == Some((m.0 as int, m.1 as int)) && from
                <= m.0 < m.1 <= s@.len(),
            None => spec_next_url(s@, from as int) is None,
        },
{
    let re = regex::Regex::new(r"https?://[^\s<]+").unwrap();
    let bfrom: usize = s.chars().take(from).map(|c| c.len_utf8()).sum();
    re.find_at(s, bfrom).map(|m| {
        let a = s[..m.start()].chars().count();
        (a, a + s[m.start()..m.end()].chars().count())
    })
}

/// Relies on regex find from an offset with the anchor-element pattern; byte
/// offsets are converted to character positions. The constant pattern is
/// valid.
#[verifier::external_body]
fn find_anchor(s: &str, from: usize) -> (r: Option<(usize, usize)>)
    requires
        from <= s@.len(),
    ensures
        match r {
            Some(m) => spec_next_anchor(s@, from as int) == Some((m.0 as int, m.1 as int)) && from
                <= m.0 < m.1 <= s@.len(),
            None => spec_next_anchor(s@, from as int) is None,
        },
{
    let re = regex::Regex::new(r"<a\b[^>]*>.*?</a>").unwrap();
    let bfrom: usize = s.chars().take(from).map(|c| c.len_utf8()).sum();
    re.find_at(s, bfrom).map(|m| {
        let a = s[..m.start()].chars().count();
        (a, a + s[m.start()..m.end()].chars().count())
    })
}

/// The anchor ranges of a text, scanned left to right from `from`.
pub open spec fn spec_anchor_ranges(s: Seq<char>, from: int) -> Seq<(int, int)>
    decreases s.len() - from,
{
    if from < 0 || from > s.len() {
        seq![]
    } else {
        match spec_next_anchor(s, from) {
            None => seq![],
            Some(m) => if from <= m.0 && m.0 < m.1 && m.1 <= s.len() {
                seq![m] + spec_anchor_ranges(s, m.1)
            } else {
                seq![]
            },
        }
    }
}

/// Collects the anchor ranges of a text.
fn collect_anchor_ranges(s: &str) -> (r: Vec<(usize, usize)>)
    ensures
        r@.map_values(|t: (usize, usize)| (t.0 as int, t.1 as int)) == spec_anchor_ranges(s@, 0),
{
    let n = s.unicode_len();
    let mut out: Vec<(usize, usize)> = Vec::new();
    let mut from: usize = 0;
    proof {
        assert(out@.map_values(|t: (usize, usize)| (t.0 as int, t.1 as int)) + spec_anchor_ranges(
            s@,
            0,
        ) =~= spec_anchor_ranges(s@, 0));
    }
    loop
        invariant
            n == s@.len(),
            from <= n,
            spec_anchor_ranges(s@, 0) == out@.map_values(
                |t: (usize, usize)| (t.0 as int, t.1 as int),
            ) + spec_anchor_ranges(s@, from as int),
        decreases n - from,
    {
        let found = find_anchor(s, from);
        match found {
            None => {
                proof {
                    assert(spec_anchor_ranges(s@, from as int) =~= Seq::<(int, int)>::empty());
                    assert(out@.map_values(|t: (usize, usize)| (t.0 as int, t.1 as int))
                        + Seq::<(int, int)>::empty() =~= out@.map_values(
                        |t: (usize, usize)| (t.0 as int, t.1 as int),
                    ));
                }
                return out;
            },
            Some(m) => {
                let ghost before = out@.map_values(|t: (usize, usize)| (t.0 as int, t.1 as int));
                out.push(m);
                proof {
                    assert(out@.map_values(|t: (usize, usize)| (t.0 as int, t.1 as int)) =~= before.push(
                        (m.0 as int, m.1 as int),
                    ));
                    assert(spec_anchor_ranges(s@, from as int) == seq![(m.0 as int, m.1 as int)]
                        + spec_anchor_ranges(s@, m.1 as int));
                    assert(before + (seq![(m.0 as int, m.1 as int)] + spec_anchor_ranges(
                        s@,
                        m.1 as int,
                    )) =~= before.push((m.0 as int, m.1 as int)) + spec_anchor_ranges(
                        s@,
                        m.1 as int,
                    ));
                }
                from = m.1;
            },
        }
    }
}

/// A span lies inside one of the ranges.
pub open spec fn spec_in_anchor(ranges: Seq<(int, int)>, a: int, b: int) -> bool {
    exists|k: int| 0 <= k < ranges.len() && (#[trigger] ranges[k]).0 <= a && b <= ranges[k].1
}

/// Decides whether a span lies inside one of the collected ranges.
fn in_anchor(ranges: &Vec<(usize, usize)>, a: usize, b: usize) -> (r: bool)
    ensures
        r == spec_in_anchor(
            ranges@.map_values(|t: (usize, usize)| (t.0 as int, t.1 as int)),
            a as int,
            b as int,
        ),
{
    let ghost rs = ranges@.map_values(|t: (usize, usize)| (t.0 as int, t.1 as int));
    let n = ranges.len();
    let mut k: usize = 0;
    while k < n
        invariant
            n == ranges@.len(),
            rs == ranges@.map_values(|t: (usize, usize)| (t.0 as int, t.1 as int)),
            k <= n,
            forall|j: int| 0 <= j < k ==> !((#[trigger] rs[j]).0 <= a && b as int <= rs[j].1),
        decreases n - k,
    {
        if ranges[k].0 <= a && b <= ranges[k].1 {
            proof {
                assert(rs[k as int].0 <= a as int && b as int <= rs[k as int].1);
            }
            return true;
        }
        proof {
            assert(rs[k as int] == (ranges@[k as int].0 as int, ranges@[k as int].1 as int));
        }
        k = k + 1;
    }
    false
}

/// The anchor markup a bare URL is replaced with; an external URL opens in a
/// new tab with hardened rel attributes.
pub open spec fn spec_anchor_markup(url: Seq<char>) -> Seq<char> {
    if crate::text::spec_starts_with(url, "http://"@) || crate::text::spec_starts_with(
        url,
        "https://"@,
    ) {
        "<a href=\""@ + url + "\" target=\"_blank\" rel=\"noopener noreferrer\">"@ + url
            + "</a>"@
    } else {
        "<a href=\""@ + url + "\">"@ + url + "</a>"@
    }
}

/// The converted text from `from` on, with everything from `last` still to be
/// copied: URL matches inside anchors are left alone, the rest are wrapped.
pub open spec fn spec_convert_from(
    s: Seq<char>,
    ranges: Seq<(int, int)>,
    last: int,
    from: int,
) -> Seq<char>
    decreases s.len() - from,
{
    if !(0 <= last <= s.len()) || from < 0 || from > s.len() {
        Seq::empty()
    } else {
        match spec_next_url(s, from) {
            None => s.subrange(last, s.len() as int),
            Some(m) => {
                if from <= m.0 && m.0 < m.1 && m.1 <= s.len() && last <= m.0 {
                    if spec_in_anchor(ranges, m.0, m.1) {
                        spec_convert_from(s, ranges, last, m.1)
                    } else {
                        s.subrange(last, m.0) + spec_anchor_markup(s.subrange(m.0, m.1))
                            + spec_convert_from(s, ranges, m.1, m.1)
                    }
                } else {
                    Seq::empty()
                }
            },
        }
    }
}

/// The text with every bare URL outside an existing anchor wrapped in anchor
/// markup (the text unchanged when the conversion yields nothing).
pub open spec fn spec_convert_urls(s: Seq<char>) -> Seq<char> {
    let c = spec_convert_from(s, spec_anchor_ranges(s, 0), 0, 0);
    if c.len() == 0 {
        s
    } else {
        c
    }
}

/// Wraps every bare URL outside an existing anchor element in anchor markup.
pub fn convert_urls_to_anchors(html: &str) -> (r: String)
    ensures
        r@ == spec_convert_urls(html@),
{
    let ranges = collect_anchor_ranges(html);
    let ghost rs = ranges@.map_values(|t: (usize, usize)| (t.0 as int, t.1 as int));
    let n = html.unicode_len();
    let mut out = String::new();
    let mut last: usize = 0;
    let mut from: usize = 0;
    proof {
        assert(out@ + spec_convert_from(html@, rs, 0, 0) =~= spec_convert_from(html@, rs, 0, 0));
    }
    loop
        invariant
            n == html@.len(),
            rs == ranges@.map_values(|t: (usize, usize)| (t.0 as int, t.1 as int)),
            rs == spec_anchor_ranges(html@, 0),
            last <= from <= n,
            spec_convert_from(html@, rs, 0, 0) == out@ + spec_convert_from(
                html@,
                rs,
                last as int,
                from as int,
            ),
        decreases n - from,
    {
        let found = find_url(html, from);
        match found {
            None => {
                let tail = html.substring_char(last, n);
                out.append(tail);
                proof {
                    assert(tail@ =~= html@.subrange(last as int, n as int));
                    assert(spec_convert_from(html@, rs, last as int, from as int)
                        == html@.subrange(last as int, n as int));
                }
                if out.as_str().is_empty() {
                    proof {
                        assert(spec_convert_from(html@, rs, 0, 0).len() == 0);
                    }
                    return str_to_string(html);
                }
                proof {
                    assert(spec_convert_from(html@, rs, 0, 0).len() != 0);
                }
                return out;
            },
            Some(m) => {
                let (a, b) = m;
                if in_anchor(&ranges, a, b) {
                    proof {
                        assert(spec_convert_from(html@, rs, last as int, from as int)
                            == spec_convert_from(html@, rs, last as int, b as int));
                    }
                    from = b;
                } else {
                    let pre = html.substring_char(last, a);
                    out.append(pre);
                    let url = html.substring_char(a, b);
                    proof {
                        assert(pre@ =~= html@.subrange(last as int, a as int));
                        assert(url@ =~= html@.subrange(a as int, b as int));
                    }
                    let ext = crate::text::str_starts_with(url, "http://")
                        || crate::text::str_starts_with(url, "https://");
                    out.append("<a href=\"");
                    out.append(url);
                    if ext {
                        out.append("\" target=\"_blank\" rel=\"noopener noreferrer\">");
                    } else {
                        out.append("\">");
                    }
                    out.append(url);
                    out.append("</a>");
                    proof {
                        assert(spec_convert_from(html@, rs, last as int, from as int)
                            == html@.subrange(last as int, a as int) + spec_anchor_markup(
                            html@.subrange(a as int, b as int),
                        ) + spec_convert_from(html@, rs, b as int, b as int));
                    }
                    last = b;
                    from = b;
                }
            },
        }
    }
}

} // verus!
