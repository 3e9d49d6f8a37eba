//! Link resolution and rewriting.
//!
//! `resolve_link_path` canonicalizes a link target relative to a source
//! document into a `/`-prefixed absolute path. `rewrite_link_to_relative`
//! additionally maps `.md` targets to their generated `.html` pages, maps
//! directory-like targets to their `index.html`, and emits the relative URL
//! from the source document's directory.

use vstd::prelude::*;

use crate::index::PathIndex;
use crate::paths::{
    dot, dotdot, joinable, join_path, lemma_join_push, lemma_norm_concat, lemma_norm_dotdots,
    lemma_norm_shift, lemma_norm_wf, lemma_norm_wf_appends, lemma_rfind_dot_bounds,
    lemma_split_join_inverse, lemma_split_slash_free, norm_push, normalize_pieces, safe_from,
    spec_split_acc,
    seg_ext_is, seg_stem, slash_free, spec_ext, spec_has_ext, spec_join, spec_norm_from,
    spec_segments_of, spec_split, spec_stem, split_path, wf_segment, wf_segments,
};
use crate::metadata::{MetadataStore, PageMetadata};
use crate::text::{spec_starts_with, str_to_string};

verus! {

/// The characters of the `md` extension.
pub open spec fn chars_md() -> Seq<char> {
    seq!['m', 'd']
}

/// The characters of `.html`.
pub open spec fn chars_dot_html() -> Seq<char> {
    seq!['.', 'h', 't', 'm', 'l']
}

/// The `index.md` file name.
pub open spec fn seg_index_md() -> Seq<char> {
    seq!['i', 'n', 'd', 'e', 'x', '.', 'm', 'd']
}

/// The `index.html` file name.
pub open spec fn seg_index_html() -> Seq<char> {
    seq!['i', 'n', 'd', 'e', 'x', '.', 'h', 't', 'm', 'l']
}

/// A target starting with `/` is absolute (relative to the site root).
pub open spec fn spec_is_abs(target: Seq<char>) -> bool {
    target.len() > 0 && target[0] == '/'
}

/// The raw pieces of the directory that holds `from`.
pub open spec fn spec_dir_pieces(from: Seq<char>) -> Seq<Seq<char>> {
    spec_split(from).drop_last()
}

/// The canonical segments a link target denotes: an absolute target is
/// normalized on its own, a relative one is joined to `from`'s directory
/// first.
pub open spec fn spec_resolve_segs(from: Seq<char>, target: Seq<char>) -> Seq<Seq<char>> {
    if spec_is_abs(target) {
        spec_segments_of(target)
    } else {
        spec_norm_from(seq![], spec_dir_pieces(from) + spec_split(target))
    }
}

/// The `/`-prefixed canonical path a link target denotes.
pub open spec fn spec_resolve(from: Seq<char>, target: Seq<char>) -> Seq<char> {
    seq!['/'] + spec_join(spec_resolve_segs(from, target))
}

/// Resolved segments are well-formed: non-empty, free of `/`, `.` and `..`.
pub proof fn lemma_resolve_segs_wf(from: Seq<char>, target: Seq<char>)
    ensures
        wf_segments(spec_resolve_segs(from, target)),
{
    if spec_is_abs(target) {
        lemma_split_slash_free(target);
        lemma_norm_wf(seq![], spec_split(target));
    } else {
        let pieces = spec_dir_pieces(from) + spec_split(target);
        lemma_split_slash_free(from);
        lemma_split_slash_free(target);
        crate::paths::lemma_split_len(from);
        assert forall|i: int| 0 <= i < pieces.len() implies slash_free(#[trigger] pieces[i]) by {
            let d = spec_dir_pieces(from);
            if i < d.len() {
                assert(pieces[i] == d[i]);
                assert(d[i] == spec_split(from)[i]);
                assert(slash_free(spec_split(from)[i]));
            } else {
                assert(pieces[i] == spec_split(target)[i - d.len()]);
                assert(slash_free(spec_split(target)[i - d.len()]));
            }
        }
        lemma_norm_wf(seq![], pieces);
    }
}

/// Canonical segments of a link target, executable form.
pub fn resolve_link_segs(from: &str, target: &str) -> (r: Vec<String>)
    ensures
        r.deep_view() == spec_resolve_segs(from@, target@),
        wf_segments(r.deep_view()),
{
    let is_abs = target.unicode_len() > 0 && target.get_char(0) == '/';
    let pieces: Vec<String> = if is_abs {
        split_path(target)
    } else {
        let mut d = split_path(from);
        let ghost d0 = d.deep_view();
        d.pop();
        proof {
            assert(d.deep_view() =~= d0.drop_last());
        }
        let mut t = split_path(target);
        let ghost dv = d.deep_view();
        let ghost tv = t.deep_view();
        d.append(&mut t);
        proof {
            assert(d.deep_view() =~= dv + tv);
        }
        d
    };
    let r = normalize_pieces(pieces);
    proof {
        lemma_resolve_segs_wf(from@, target@);
    }
    r
}

/// The `/`-prefixed canonical path of a link target: an absolute target is
/// normalized as it stands, a relative one is joined to the directory of
/// `from`; `..` pieces pop one segment and do nothing at the root.
pub fn resolve_link_path(from: &str, target: &str) -> (r: String)
    ensures
        r@ == spec_resolve(from@, target@),
{
    let segs = resolve_link_segs(from, target);
    let joined = join_path(&segs);
    let mut out = str_to_string("/");
    out.append(joined.as_str());
    proof {
        reveal_strlit("/");
        assert("/"@ =~= seq!['/']);
    }
    out
}

/// Length of the longest common prefix of two segment sequences.
pub open spec fn spec_lcp(a: Seq<Seq<char>>, b: Seq<Seq<char>>) -> int
    decreases a.len(),
{
    if a.len() == 0 || b.len() == 0 || a[0] != b[0] {
        0
    } else {
        1 + spec_lcp(a.drop_first(), b.drop_first())
    }
}

/// The common prefix lies within both sequences and both agree on it.
pub proof fn lemma_lcp_props(a: Seq<Seq<char>>, b: Seq<Seq<char>>)
    ensures
        0 <= spec_lcp(a, b) <= a.len(),
        spec_lcp(a, b) <= b.len(),
        a.take(spec_lcp(a, b)) == b.take(spec_lcp(a, b)),
    decreases a.len(),
{
    if a.len() == 0 || b.len() == 0 || a[0] != b[0] {
        assert(a.take(0) =~= b.take(0));
    } else {
        lemma_lcp_props(a.drop_first(), b.drop_first());
        let c = spec_lcp(a, b);
        assert(a.drop_first().take(c - 1) == b.drop_first().take(c - 1));
        assert(a.take(c) =~= b.take(c)) by {
            assert forall|i: int| 0 <= i < c implies a[i] == b[i] by {
                if i > 0 {
                    assert(a.drop_first().take(c - 1)[i - 1] == b.drop_first().take(c - 1)[i - 1]);
                }
            }
        }
    }
}

/// Sequences agreeing on their first `i` entries have a common prefix of `i`
/// plus whatever their remainders share.
proof fn lemma_lcp_skip(a: Seq<Seq<char>>, b: Seq<Seq<char>>, i: int)
    requires
        0 <= i <= a.len(),
        0 <= i <= b.len(),
        forall|j: int| 0 <= j < i ==> a[j] == b[j],
    ensures
        spec_lcp(a, b) == i + spec_lcp(a.skip(i), b.skip(i)),
    decreases i,
{
    if i == 0 {
        assert(a.skip(0) =~= a);
        assert(b.skip(0) =~= b);
    } else {
        assert(a[0] == b[0]);
        lemma_lcp_skip(a.drop_first(), b.drop_first(), i - 1);
        assert(a.drop_first().skip(i - 1) =~= a.skip(i));
        assert(b.drop_first().skip(i - 1) =~= b.skip(i));
    }
}

/// Longest common prefix of two segment vectors.
fn lcp_segs(a: &Vec<String>, b: &Vec<String>) -> (r: usize)
    ensures
        r == spec_lcp(a.deep_view(), b.deep_view()),
{
    let alen = a.len();
    let blen = b.len();
    let mut i: usize = 0;
    loop
        invariant
            alen == a.deep_view().len(),
            blen == b.deep_view().len(),
            i <= alen,
            i <= blen,
            forall|j: int| 0 <= j < i ==> a.deep_view()[j] == b.deep_view()[j],
        decreases alen - i,
    {
        if i == alen || i == blen {
            proof {
                lemma_lcp_skip(a.deep_view(), b.deep_view(), i as int);
            }
            return i;
        }
        if !crate::text::str_eq(a[i].as_str(), b[i].as_str()) {
            proof {
                lemma_lcp_skip(a.deep_view(), b.deep_view(), i as int);
                assert(a.deep_view().skip(i as int)[0] == a.deep_view()[i as int]);
                assert(b.deep_view().skip(i as int)[0] == b.deep_view()[i as int]);
                assert(a.deep_view()[i as int] == a[i as int]@);
                assert(b.deep_view()[i as int] == b[i as int]@);
            }
            return i;
        }
        proof {
            assert(a.deep_view()[i as int] == a[i as int]@);
            assert(b.deep_view()[i as int] == b[i as int]@);
        }
        i = i + 1;
    }
}

/// A run of `k` `..` pieces.
pub open spec fn spec_dotdots(k: int) -> Seq<Seq<char>> {
    Seq::new(
        if k >= 0 {
            k as nat
        } else {
            0
        },
        |i: int| dotdot(),
    )
}

/// The relative route from `base` to `target`: one `..` for every segment of
/// `base` past their common prefix, then the rest of `target`.
pub open spec fn spec_rel_segs(target: Seq<Seq<char>>, base: Seq<Seq<char>>) -> Seq<Seq<char>> {
    spec_dotdots(base.len() - spec_lcp(target, base)) + target.skip(spec_lcp(target, base))
}

/// Computes the relative route from `base` to `target`.
pub fn relative_url_segs(target: &Vec<String>, base: &Vec<String>) -> (r: Vec<String>)
    ensures
        r.deep_view() == spec_rel_segs(target.deep_view(), base.deep_view()),
{
    let c = lcp_segs(target, base);
    proof {
        lemma_lcp_props(target.deep_view(), base.deep_view());
    }
    let k = base.len() - c;
    let mut out: Vec<String> = Vec::new();
    let mut i: usize = 0;
    proof {
        assert(out.deep_view() =~= spec_dotdots(0));
    }
    while i < k
        invariant
            i <= k,
            out.deep_view() == spec_dotdots(i as int),
        decreases k - i,
    {
        let ghost before = out.deep_view();
        out.push(str_to_string(".."));
        proof {
            reveal_strlit("..");
            assert("..".view() =~= dotdot());
            assert(out.deep_view() =~= before.push(dotdot()));
            assert(before.push(dotdot()) =~= spec_dotdots(i + 1));
        }
        i = i + 1;
    }
    let mut j: usize = c;
    let n = target.len();
    proof {
        assert(spec_dotdots(k as int) + target.deep_view().subrange(c as int, c as int)
            =~= spec_dotdots(k as int));
    }
    while j < n
        invariant
            c <= j <= n,
            n == target.deep_view().len(),
            c == spec_lcp(target.deep_view(), base.deep_view()),
            k == base.deep_view().len() - c,
            out.deep_view() == spec_dotdots(k as int) + target.deep_view().subrange(
                c as int,
                j as int,
            ),
        decreases n - j,
    {
        let ghost before = out.deep_view();
        out.push(target[j].clone());
        proof {
            assert(out.deep_view() =~= before.push(target.deep_view()[j as int]));
            assert(before.push(target.deep_view()[j as int]) =~= spec_dotdots(k as int)
                + target.deep_view().subrange(c as int, j + 1));
        }
        j = j + 1;
    }
    proof {
        assert(target.deep_view().subrange(c as int, n as int) =~= target.deep_view().skip(
            c as int,
        ));
    }
    out
}

/// A segment list denotes a directory when some indexed file lies under it.
pub open spec fn spec_is_dir(segs: Seq<Seq<char>>, index: Seq<Seq<char>>) -> bool {
    exists|i: int|
        0 <= i < index.len() && spec_starts_with(#[trigger] index[i], spec_join(segs) + seq!['/'])
}

/// The path of the `index.md` belonging to a directory.
pub open spec fn spec_index_md_of(segs: Seq<Seq<char>>) -> Seq<char> {
    spec_join(segs.push(seg_index_md()))
}

/// Maps resolved target segments onto the generated site: `.md` becomes
/// `.html`; an empty, extension-less or directory target gets `index.html`
/// appended when the site root is meant or an `index.md` exists there.
pub open spec fn spec_map_target(segs: Seq<Seq<char>>, index: Seq<Seq<char>>) -> Seq<Seq<char>> {
    if segs.len() > 0 && spec_has_ext(segs.last()) && spec_ext(segs.last()) == chars_md() {
        segs.update(segs.len() - 1, spec_stem(segs.last()) + chars_dot_html())
    } else if spec_is_dir(segs, index) || segs.len() == 0 || !spec_has_ext(segs.last()) {
        if segs.len() == 0 || index.contains(spec_index_md_of(segs)) {
            segs.push(seg_index_html())
        } else {
            segs
        }
    } else {
        segs
    }
}

/// Executable form of `spec_map_target`.
pub fn map_target_segs(segs: Vec<String>, index: &PathIndex) -> (r: Vec<String>)
    ensures
        r.deep_view() == spec_map_target(segs.deep_view(), index@),
{
    let ghost sv = segs.deep_view();
    let n = segs.len();
    proof {
        reveal_strlit("md");
        assert("md"@ =~= chars_md());
        if n > 0 {
            assert(sv.last() == segs[n - 1]@);
        }
    }
    if n > 0 && seg_ext_is(segs[n - 1].as_str(), "md") {
        let mut newseg = seg_stem(segs[n - 1].as_str());
        newseg.append(".html");
        proof {
            reveal_strlit(".html");
            assert(".html"@ =~= chars_dot_html());
        }
        let mut out = segs;
        out.pop();
        out.push(newseg);
        proof {
            assert(out.deep_view() =~= sv.update(sv.len() - 1, spec_stem(sv.last())
                + chars_dot_html()));
        }
        return out;
    }
    proof {
        assert(!(sv.len() > 0 && spec_has_ext(sv.last()) && spec_ext(sv.last()) == chars_md()));
    }
    let joined = join_path(&segs);
    let mut dir_pre = str_to_string(joined.as_str());
    dir_pre.append("/");
    proof {
        reveal_strlit("/");
        assert("/"@ =~= seq!['/']);
        assert(dir_pre@ == spec_join(sv) + seq!['/']);
    }
    let is_dir = index.has_with_prefix(dir_pre.as_str());
    proof {
        assert(is_dir == spec_is_dir(sv, index@));
    }
    let no_ext = if n == 0 {
        true
    } else {
        !crate::paths::seg_has_ext(segs[n - 1].as_str())
    };
    if is_dir || n == 0 || no_ext {
        let ix_md = if n == 0 {
            str_to_string("index.md")
        } else {
            let mut t = str_to_string(joined.as_str());
            t.append("/");
            t.append("index.md");
            t
        };
        proof {
            reveal_strlit("index.md");
            assert("index.md"@ =~= seg_index_md());
            lemma_join_push(sv, seg_index_md());
            assert(ix_md@ == spec_index_md_of(sv));
        }
        if n == 0 || index.contains(ix_md.as_str()) {
            let mut out = segs;
            out.push(str_to_string("index.html"));
            proof {
                reveal_strlit("index.html");
                assert("index.html"@ =~= seg_index_html());
                assert(out.deep_view() =~= sv.push(seg_index_html()));
            }
            return out;
        }
        return segs;
    }
    segs
}

/// The characters of the `html` extension.
pub open spec fn chars_html() -> Seq<char> {
    seq!['h', 't', 'm', 'l']
}

/// The characters of `.md`.
pub open spec fn chars_dot_md() -> Seq<char> {
    seq!['.', 'm', 'd']
}

/// The markdown document a resolved link target refers to: `.html` maps back
/// to `.md`, and an empty, extension-less or directory target means the
/// directory's `index.md`.
pub open spec fn spec_title_source(segs: Seq<Seq<char>>, index: Seq<Seq<char>>) -> Seq<char> {
    if segs.len() > 0 && spec_has_ext(segs.last()) && spec_ext(segs.last()) == chars_html() {
        spec_join(segs.update(segs.len() - 1, spec_stem(segs.last()) + chars_dot_md()))
    } else if spec_is_dir(segs, index) || segs.len() == 0 || !spec_has_ext(segs.last()) {
        spec_index_md_of(segs)
    } else {
        spec_join(segs)
    }
}

/// The title a link target carries: the underlying document's `nav_title`,
/// else its `page_title`, else its `computed_title`; `None` when the document
/// is unknown or offers none of the three.
pub open spec fn spec_link_title(
    from: Seq<char>,
    target: Seq<char>,
    index: Seq<Seq<char>>,
    store: Map<Seq<char>, PageMetadata>,
) -> Option<String> {
    let key = spec_title_source(spec_resolve_segs(from, target), index);
    if store.contains_key(key) {
        let m = store[key];
        if m.nav_title is Some {
            m.nav_title
        } else if m.page_title is Some {
            m.page_title
        } else {
            m.computed_title
        }
    } else {
        None
    }
}

/// Looks up the title of the document a link denotes.
pub fn get_link_title(from: &str, target: &str, store: &MetadataStore, index: &PathIndex) -> (r:
    Option<String>)
    ensures
        r == spec_link_title(from@, target@, index@, store@),
{
    let segs = resolve_link_segs(from, target);
    let ghost sv = segs.deep_view();
    let n = segs.len();
    proof {
        reveal_strlit("html");
        assert("html"@ =~= chars_html());
        if n > 0 {
            assert(sv.last() == segs[n - 1]@);
        }
    }
    let key: String;
    if n > 0 && seg_ext_is(segs[n - 1].as_str(), "html") {
        let mut newseg = seg_stem(segs[n - 1].as_str());
        newseg.append(".md");
        proof {
            reveal_strlit(".md");
            assert(".md"@ =~= chars_dot_md());
        }
        let mut md_segs = segs;
        md_segs.pop();
        md_segs.push(newseg);
        proof {
            assert(md_segs.deep_view() =~= sv.update(sv.len() - 1, spec_stem(sv.last())
                + chars_dot_md()));
        }
        key = join_path(&md_segs);
    } else {
        proof {
            assert(!(sv.len() > 0 && spec_has_ext(sv.last()) && spec_ext(sv.last())
                == chars_html()));
        }
        let joined = join_path(&segs);
        let mut dir_pre = str_to_string(joined.as_str());
        dir_pre.append("/");
        proof {
            reveal_strlit("/");
            assert("/"@ =~= seq!['/']);
            assert(dir_pre@ == spec_join(sv) + seq!['/']);
        }
        let is_dir = index.has_with_prefix(dir_pre.as_str());
        proof {
            assert(is_dir == spec_is_dir(sv, index@));
        }
        let no_ext = if n == 0 {
            true
        } else {
            !crate::paths::seg_has_ext(segs[n - 1].as_str())
        };
        if is_dir || n == 0 || no_ext {
            let mut v2 = segs;
            v2.push(str_to_string("index.md"));
            proof {
                reveal_strlit("index.md");
                assert("index.md"@ =~= seg_index_md());
                assert(v2.deep_view() =~= sv.push(seg_index_md()));
            }
            key = join_path(&v2);
        } else {
            key = join_path(&segs);
        }
    }
    match store.get(key.as_str()) {
        None => None,
        Some(m) => {
            match &m.nav_title {
                Some(s) => {
                    let c = s.clone();
                    proof {
                        assert(Some(c) == m.nav_title);
                    }
                    Some(c)
                },
                None => match &m.page_title {
                    Some(s) => {
                        let c = s.clone();
                        proof {
                            assert(Some(c) == m.page_title);
                        }
                        Some(c)
                    },
                    None => match &m.computed_title {
                        Some(s) => {
                            let c = s.clone();
                            proof {
                                assert(Some(c) == m.computed_title);
                            }
                            Some(c)
                        },
                        None => None,
                    },
                },
            }
        },
    }
}

/// The rewritten relative URL for a link, from resolution through `.md` to
/// `.html` mapping to the path difference against `from`'s directory.
pub open spec fn spec_rewrite(from: Seq<char>, target: Seq<char>, index: Seq<Seq<char>>) -> Seq<
    char,
> {
    spec_join(
        spec_rel_segs(
            spec_map_target(spec_resolve_segs(from, target), index),
            spec_dir_pieces(from),
        ),
    )
}

/// The relative route is correct: resolving the emitted `..` steps and
/// remaining segments against the base directory lands exactly on the target.
pub proof fn lemma_rel_url_resolves(target: Seq<Seq<char>>, base: Seq<Seq<char>>)
    requires
        wf_segments(target),
        wf_segments(base),
    ensures
        spec_norm_from(base, spec_rel_segs(target, base)) == target,
{
    let c = spec_lcp(target, base);
    lemma_lcp_props(target, base);
    let k = base.len() - c;
    let dots = spec_dotdots(k as int);
    let suffix = target.skip(c);
    lemma_norm_concat(base, dots, suffix);
    assert(dots =~= Seq::new(k as nat, |i: int| dotdot()));
    lemma_norm_dotdots(base, k as int);
    assert(spec_norm_from(base, dots) == base.take(c));
    assert(wf_segments(suffix)) by {
        assert forall|i: int| 0 <= i < suffix.len() implies wf_segment(#[trigger] suffix[i]) by {
            assert(suffix[i] == target[c + i]);
        }
    }
    lemma_norm_wf_appends(base.take(c), suffix);
    assert(base.take(c) == target.take(c));
    assert(target.take(c) + suffix =~= target);
}

/// Normalizing the split of an absolute path string `'/' + join(segs)` gives
/// back `segs`, for well-formed segments.
proof fn lemma_segments_of_abs(segs: Seq<Seq<char>>)
    requires
        wf_segments(segs),
    ensures
        spec_segments_of(seq!['/'] + spec_join(segs)) == segs,
{
    crate::paths::lemma_split_slash_prefix(spec_join(segs));
    assert(joinable(segs)) by {
        assert(forall|i: int| 0 <= i < segs.len() ==> wf_segment(#[trigger] segs[i]));
    }
    lemma_split_join_inverse(segs);
    let e = Seq::<char>::empty();
    let s0: Seq<Seq<char>> = seq![];
    if segs.len() == 0 {
        let pieces = seq![e] + seq![e];
        assert(spec_split(seq!['/'] + spec_join(segs)) == pieces);
        assert(e.len() == 0 && dotdot().len() == 2);
        assert(norm_push(s0, e) == s0);
        assert(pieces.len() == 2);
        assert(pieces[0] == e);
        assert(pieces.drop_first() =~= seq![e]);
        assert(spec_norm_from(s0, pieces) == spec_norm_from(s0, seq![e]));
        assert(seq![e].len() == 1);
        assert(seq![e][0] == e);
        assert(seq![e].drop_first() =~= s0);
        assert(spec_norm_from(s0, seq![e]) == spec_norm_from(s0, s0));
        assert(spec_norm_from(s0, s0) == s0);
        assert(segs =~= s0);
    } else {
        let pieces = seq![e] + segs;
        assert(spec_split(seq!['/'] + spec_join(segs)) == pieces);
        assert(pieces[0] == e);
        assert(pieces.drop_first() =~= segs);
        assert(norm_push(seq![], e) =~= Seq::<Seq<char>>::empty());
        lemma_norm_wf_appends(seq![], segs);
        assert(seq![] + segs =~= segs);
    }
}

/// Resolution is idempotent on its own output: what `resolve_link_path`
/// returns is absolute and normalized, and resolving it again, from any
/// document at all, returns it unchanged.
pub proof fn lemma_resolve_idempotent(from1: Seq<char>, from2: Seq<char>, target: Seq<char>)
    ensures
        spec_resolve(from2, spec_resolve(from1, target)) == spec_resolve(from1, target),
{
    let segs = spec_resolve_segs(from1, target);
    lemma_resolve_segs_wf(from1, target);
    let a = spec_resolve(from1, target);
    assert(a[0] == '/');
    assert(spec_is_abs(a));
    lemma_segments_of_abs(segs);
    assert(spec_resolve_segs(from2, a) == segs);
}

/// Path normalization is confluent: two relative targets that denote the same
/// canonical location, and never step past the root while doing so, resolve
/// to the same absolute path from any document.
pub proof fn lemma_resolve_confluent(from: Seq<char>, t1: Seq<char>, t2: Seq<char>)
    requires
        !spec_is_abs(t1),
        !spec_is_abs(t2),
        safe_from(spec_split(t1), 0),
        safe_from(spec_split(t2), 0),
        spec_segments_of(t1) == spec_segments_of(t2),
    ensures
        spec_resolve(from, t1) == spec_resolve(from, t2),
{
    let d = spec_dir_pieces(from);
    let dn = spec_norm_from(seq![], d);
    lemma_norm_concat(seq![], d, spec_split(t1));
    lemma_norm_concat(seq![], d, spec_split(t2));
    lemma_norm_shift(dn, seq![], spec_split(t1));
    lemma_norm_shift(dn, seq![], spec_split(t2));
    assert(dn + Seq::<Seq<char>>::empty() =~= dn);
    assert(spec_norm_from(dn, spec_split(t1)) == dn + spec_segments_of(t1));
    assert(spec_norm_from(dn, spec_split(t2)) == dn + spec_segments_of(t2));
}

/// For a markdown path `p` of the site, rewriting a self-referential link
/// from `p` to `/p` yields a relative URL that, resolved against `p`'s own
/// directory, lands exactly on the page generated for `p`: `p` with its `md`
/// extension mapped to `html`.
pub proof fn lemma_self_link_round_trip(p: Seq<char>, index: Seq<Seq<char>>)
    requires
        index.contains(p),
        wf_segments(spec_split(p)),
        spec_has_ext(spec_split(p).last()),
        spec_ext(spec_split(p).last()) == chars_md(),
    ensures
        ({
            let segs = spec_split(p);
            let html = segs.update(
                segs.len() - 1,
                spec_stem(segs.last()) + chars_dot_html(),
            );
            spec_resolve(p, spec_rewrite(p, seq!['/'] + p, index)) == seq!['/'] + spec_join(html)
        }),
{
    let segs = spec_split(p);
    crate::paths::lemma_split_len(p);
    let name = spec_stem(segs.last()) + chars_dot_html();
    let html = segs.update(segs.len() - 1, name);
    let tgt = seq!['/'] + p;

    // The absolute self-link resolves to p's own segments.
    assert(tgt[0] == '/');
    assert(spec_is_abs(tgt));
    assert(joinable(segs)) by {
        assert(forall|i: int| 0 <= i < segs.len() ==> wf_segment(#[trigger] segs[i]));
    }
    lemma_split_join_inverse(segs);
    lemma_join_split_identity(p);
    assert(spec_join(segs) == p);
    lemma_segments_of_abs(segs);
    assert(spec_resolve_segs(p, tgt) == segs);

    // The md target maps to its html page.
    lemma_rfind_dot_bounds(segs.last());
    assert(spec_map_target(segs, index) == html);

    // The relative route is just the html file name.
    let base = spec_dir_pieces(p);
    assert(base =~= segs.drop_last());
    assert(html.len() == base.len() + 1);
    lemma_lcp_skip(html, base, base.len() as int);
    assert(base.skip(base.len() as int) =~= Seq::<Seq<char>>::empty());
    assert(spec_lcp(html.skip(base.len() as int), base.skip(base.len() as int)) == 0);
    let c = spec_lcp(html, base);
    assert(c == base.len());
    assert(html.skip(c) =~= seq![name]);
    assert(spec_dotdots(0) =~= Seq::<Seq<char>>::empty());
    let rel = spec_rel_segs(html, base);
    assert(rel =~= seq![name]);
    let url = spec_rewrite(p, tgt, index);
    assert(url == spec_join(seq![name]));
    assert(url == name);

    // The html name is itself a well-formed segment.
    assert(wf_segment(segs.last()));
    let stem = spec_stem(segs.last());
    assert(stem.len() >= 1);
    assert(wf_segment(name)) by {
        assert(name.len() >= 6);
        assert(name.len() != 1 && name.len() != 2);
        assert(name != dot());
        assert(name != dotdot());
        assert forall|i: int| 0 <= i < name.len() implies name[i] != '/' by {
            if i < stem.len() {
                assert(name[i] == segs.last()[i]);
            } else {
                assert(name[i] == chars_dot_html()[i - stem.len()]);
            }
        }
    }

    // Resolving the url from p's directory reaches the html page.
    assert(name[0] == segs.last()[0]);
    assert(!spec_is_abs(url));
    assert(joinable(seq![name])) by {
        assert(seq![name][0] == name);
    }
    lemma_split_join_inverse(seq![name]);
    assert(spec_join(seq![name]) == name);
    assert(spec_split(url) == seq![name]);
    let pieces = base + seq![name];
    assert(wf_segments(pieces)) by {
        assert forall|i: int| 0 <= i < pieces.len() implies wf_segment(#[trigger] pieces[i]) by {
            if i < base.len() {
                assert(pieces[i] == segs[i]);
            } else {
                assert(pieces[i] == name);
            }
        }
    }
    lemma_norm_wf_appends(seq![], pieces);
    assert(seq![] + pieces =~= pieces);
    assert(pieces =~= html);
    assert(spec_resolve_segs(p, url) == html);
}

/// Joining the split of a string that splits into well-formed pieces gives
/// the string back.
proof fn lemma_join_split_identity(p: Seq<char>)
    requires
        wf_segments(spec_split(p)),
    ensures
        spec_join(spec_split(p)) == p,
{
    lemma_join_split_acc(p, seq![]);
    assert(seq![] + p =~= p);
}

/// Generalization over the split accumulator.
proof fn lemma_join_split_acc(s: Seq<char>, cur: Seq<char>)
    requires
        forall|i: int|
            0 <= i < spec_split_acc(s, cur).len() ==> (#[trigger] spec_split_acc(s, cur)[i]).len()
                > 0,
    ensures
        spec_join(spec_split_acc(s, cur)) == cur + s,
    decreases s.len(),
{
    if s.len() == 0 {
        assert(spec_split_acc(s, cur) == seq![cur]);
        assert(spec_join(seq![cur]) == cur);
        assert(cur + s =~= cur);
    } else if s[0] == '/' {
        let rec = spec_split_acc(s.drop_first(), seq![]);
        let whole = spec_split_acc(s, cur);
        assert(whole == seq![cur] + rec);
        assert forall|i: int| 0 <= i < rec.len() implies (#[trigger] rec[i]).len() > 0 by {
            assert(whole[i + 1] == rec[i]);
        }
        lemma_join_split_acc(s.drop_first(), seq![]);
        crate::paths::lemma_split_acc_len(s.drop_first(), seq![]);
        assert(whole.len() >= 2);
        assert(whole[0] == cur);
        assert(whole.drop_first() =~= rec);
        assert(spec_join(whole) == cur + seq!['/'] + spec_join(rec));
        assert(spec_join(rec) == seq![] + s.drop_first());
        assert(seq![] + s.drop_first() =~= s.drop_first());
        assert(cur + seq!['/'] + s.drop_first() =~= cur + s);
    } else {
        assert(spec_split_acc(s, cur) == spec_split_acc(s.drop_first(), cur.push(s[0])));
        lemma_join_split_acc(s.drop_first(), cur.push(s[0]));
        assert(cur.push(s[0]) + s.drop_first() =~= cur + s);
    }
}

/// Rewrites a link target of the document `from` into the relative URL of the
/// generated page it denotes; a dangling target still yields its would-be URL.
pub fn rewrite_link_to_relative(from: &str, target: &str, index: &PathIndex) -> (r: String)
    ensures
        r@ == spec_rewrite(from@, target@, index@),
{
    let segs = resolve_link_segs(from, target);
    let mapped = map_target_segs(segs, index);
    let mut base = split_path(from);
    let ghost b0 = base.deep_view();
    base.pop();
    proof {
        assert(base.deep_view() =~= b0.drop_last());
    }
    let rel = relative_url_segs(&mapped, &base);
    join_path(&rel)
}

} // verus!
