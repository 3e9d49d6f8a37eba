//! The markdown event pipeline: one forward pass over parser events that
//! promotes the first heading to the page title, rewrites and validates
//! internal links, renders external links with hardened anchor markup, and
//! substitutes a link's visible text with its target's title when the text is
//! a placeholder, empty, or just the raw destination.
//!
//! The pass is specified as a fold of `spec_pipe_step` over the event codes;
//! the executable pass maintains that fold step for step.

use vstd::prelude::*;

use pulldown_cmark::Event;

use crate::index::PathIndex;
use crate::links::{
    get_link_title, rewrite_link_to_relative, spec_index_md_of, spec_link_title,
    spec_resolve_segs, spec_rewrite,
};
use crate::mdtrust::{
    ev_code, event_dup, event_info, make_heading_start, make_html_event, make_link_start,
    make_text_event, parse_markdown_ext, parse_markdown_plain, render_events_html,
    spec_code_heading_start, spec_code_html, spec_code_link_start, spec_code_text, spec_html_of,
    spec_info_of, spec_parse_ext, spec_parse_plain, MdInfo,
};
use crate::links::resolve_link_segs;
use crate::metadata::{MetadataStore, PageMetadata};
use crate::paths::{join_path, lemma_join_push, spec_join, spec_split, spec_stem, split_path};
use crate::text::{
    lower_of, lowercase, spec_starts_with, spec_trim, str_eq, str_starts_with, str_to_string,
    trim_of,
};

verus! {

/// One output instruction of the pipeline: re-emit an input event unchanged,
/// or synthesize a replacement.
pub enum OutEv {
    Keep(usize),
    NewText(String),
    NewHtml(String),
    NewHeadingStart(u32),
    NewLinkStart { dest: String, title: String },
}

/// The abstract form of an output instruction.
pub enum GOut {
    Keep(int),
    Text(Seq<char>),
    Html(Seq<char>),
    HeadingStart(u32),
    LinkStart(Seq<char>, Seq<char>),
}

/// The abstract form of one instruction.
pub open spec fn gout_of(o: OutEv) -> GOut {
    match o {
        OutEv::Keep(i) => GOut::Keep(i as int),
        OutEv::NewText(s) => GOut::Text(s@),
        OutEv::NewHtml(s) => GOut::Html(s@),
        OutEv::NewHeadingStart(l) => GOut::HeadingStart(l),
        OutEv::NewLinkStart { dest, title } => GOut::LinkStart(dest@, title@),
    }
}

/// The abstract form of an instruction list.
pub open spec fn gouts_of(v: Seq<OutEv>) -> Seq<GOut> {
    v.map_values(|o: OutEv| gout_of(o))
}

/// The pipeline's state between events.
pub struct GState {
    pub out: Seq<GOut>,
    pub title_h1: Seq<char>,
    pub warns: Seq<Seq<char>>,
    pub in_h1: bool,
    pub first_found: bool,
    pub in_link: bool,
    pub cur_dest: Option<Seq<char>>,
    pub buf: Seq<GOut>,
    pub buf_text: Seq<char>,
    pub auto: bool,
}

/// An external destination: an `http`(s) or `ftp` URL.
pub open spec fn spec_is_external(dest: Seq<char>) -> bool {
    spec_starts_with(dest, "http"@) || spec_starts_with(dest, "ftp"@)
}

/// An internal link target is known when it resolves to the site root, to an
/// indexed file, or to a directory with an indexed `index.md`.
pub open spec fn spec_link_known(from: Seq<char>, dest: Seq<char>, index: Seq<Seq<char>>) -> bool {
    let res = spec_resolve_segs(from, dest);
    res.len() == 0 || index.contains(spec_join(res)) || index.contains(spec_index_md_of(res))
}

/// The warning a dangling internal link produces.
pub open spec fn spec_broken_warning(from: Seq<char>, dest: Seq<char>) -> Seq<char> {
    "broken link in "@ + from + ": "@ + dest
}

/// The raw anchor markup an external link opens with.
pub open spec fn spec_ext_anchor(dest: Seq<char>) -> Seq<char> {
    "<a href=\""@ + dest + "\" target=\"_blank\" rel=\"noopener noreferrer\">"@
}

/// Link text that asks for the target's title, case-insensitively.
pub open spec fn spec_is_auto_token(t: Seq<char>) -> bool {
    lower_of(spec_trim(t)) == "{title}"@
}

/// One step of the pipeline on the event classified as `info`, standing at
/// input position `i`.
pub open spec fn spec_pipe_step(
    st: GState,
    info: MdInfo,
    i: int,
    from: Seq<char>,
    index: Seq<Seq<char>>,
    store: Map<Seq<char>, PageMetadata>,
) -> GState {
    match info {
        MdInfo::HeadingStart(_level) => {
            if !st.first_found {
                GState {
                    first_found: true,
                    in_h1: true,
                    out: st.out.push(GOut::HeadingStart(1)),
                    ..st
                }
            } else {
                GState { out: st.out.push(GOut::Keep(i)), ..st }
            }
        },
        MdInfo::HeadingEnd => {
            if st.in_h1 {
                GState { in_h1: false, out: st.out.push(GOut::Html("</h1>"@)), ..st }
            } else {
                GState { out: st.out.push(GOut::Keep(i)), ..st }
            }
        },
        MdInfo::Text(t) => {
            let st1 = if st.in_h1 {
                GState { title_h1: st.title_h1 + t@, ..st }
            } else {
                st
            };
            if st1.in_link {
                GState {
                    auto: st1.auto || spec_is_auto_token(t@),
                    buf: st1.buf.push(GOut::Keep(i)),
                    buf_text: st1.buf_text + t@,
                    ..st1
                }
            } else {
                GState { out: st1.out.push(GOut::Keep(i)), ..st1 }
            }
        },
        MdInfo::LinkStart { inline, dest, title } => {
            let ext = spec_is_external(dest@);
            let st1 = GState { in_link: true, buf: seq![], buf_text: seq![], auto: false, ..st };
            if inline && !ext {
                GState {
                    cur_dest: Some(dest@),
                    warns: if spec_link_known(from, dest@, index) {
                        st1.warns
                    } else {
                        st1.warns.push(spec_broken_warning(from, dest@))
                    },
                    out: st1.out.push(
                        GOut::LinkStart(spec_rewrite(from, dest@, index), title@),
                    ),
                    ..st1
                }
            } else if ext {
                GState {
                    cur_dest: Some(dest@),
                    out: st1.out.push(GOut::Html(spec_ext_anchor(dest@))),
                    ..st1
                }
            } else {
                GState { cur_dest: None, out: st1.out.push(GOut::Keep(i)), ..st1 }
            }
        },
        MdInfo::LinkEnd { dest } => {
            let ext = spec_is_external(dest@);
            let out1 = if st.auto || st.buf.len() == 0 {
                match st.cur_dest {
                    Some(orig) => if ext {
                        st.out.push(GOut::Text(orig))
                    } else {
                        match spec_link_title(from, orig, index, store) {
                            Some(t) => st.out.push(GOut::Text(t@)),
                            None => st.out + st.buf,
                        }
                    },
                    None => st.out + st.buf,
                }
            } else {
                match st.cur_dest {
                    Some(orig) => if !ext && spec_trim(st.buf_text) == spec_trim(orig) {
                        match spec_link_title(from, orig, index, store) {
                            Some(t) => st.out.push(GOut::Text(t@)),
                            None => st.out + st.buf,
                        }
                    } else {
                        st.out + st.buf
                    },
                    None => st.out + st.buf,
                }
            };
            GState {
                in_link: false,
                cur_dest: None,
                buf: seq![],
                buf_text: seq![],
                auto: false,
                out: if ext {
                    out1.push(GOut::Html("</a>"@))
                } else {
                    out1.push(GOut::Keep(i))
                },
                ..st
            }
        },
        MdInfo::Other => {
            if st.in_link {
                GState { buf: st.buf.push(GOut::Keep(i)), ..st }
            } else {
                GState { out: st.out.push(GOut::Keep(i)), ..st }
            }
        },
    }
}

/// The state the pipeline starts in.
pub open spec fn spec_pipe_init() -> GState {
    GState {
        out: seq![],
        title_h1: seq![],
        warns: seq![],
        in_h1: false,
        first_found: false,
        in_link: false,
        cur_dest: None,
        buf: seq![],
        buf_text: seq![],
        auto: false,
    }
}

/// The state after the first `n` events.
pub open spec fn spec_pipe_fold(
    codes: Seq<nat>,
    n: int,
    from: Seq<char>,
    index: Seq<Seq<char>>,
    store: Map<Seq<char>, PageMetadata>,
) -> GState
    decreases n,
{
    if n <= 0 {
        spec_pipe_init()
    } else {
        spec_pipe_step(
            spec_pipe_fold(codes, n - 1, from, index, store),
            spec_info_of(codes[n - 1]),
            n - 1,
            from,
            index,
            store,
        )
    }
}

/// What the whole pass yields: the output instructions, the page title (the
/// first heading's text, else the document's path), and the warnings.
pub open spec fn spec_pipe_result(
    codes: Seq<nat>,
    from: Seq<char>,
    index: Seq<Seq<char>>,
    store: Map<Seq<char>, PageMetadata>,
) -> (Seq<GOut>, Seq<char>, Seq<Seq<char>>) {
    let st = spec_pipe_fold(codes, codes.len() as int, from, index, store);
    (
        st.out,
        if st.title_h1.len() > 0 {
            st.title_h1
        } else {
            from
        },
        st.warns,
    )
}

/// Instructions that fit an input of `n` events: every kept index lies below
/// `n` and every synthesized heading level is valid.
pub open spec fn gouts_wf(v: Seq<GOut>, n: int) -> bool {
    forall|j: int|
        0 <= j < v.len() ==> match #[trigger] v[j] {
            GOut::Keep(k) => 0 <= k < n,
            GOut::HeadingStart(l) => 1 <= l <= 6,
            _ => true,
        }
}

/// Every state the fold reaches holds well-formed instructions.
proof fn lemma_fold_wf(
    codes: Seq<nat>,
    n: int,
    from: Seq<char>,
    index: Seq<Seq<char>>,
    store: Map<Seq<char>, PageMetadata>,
)
    requires
        0 <= n <= codes.len(),
    ensures
        gouts_wf(spec_pipe_fold(codes, n, from, index, store).out, n),
        gouts_wf(spec_pipe_fold(codes, n, from, index, store).buf, n),
    decreases n,
{
    if n > 0 {
        lemma_fold_wf(codes, n - 1, from, index, store);
        let st = spec_pipe_fold(codes, n - 1, from, index, store);
        assert(gouts_wf(st.out, n)) by {
            assert(forall|j: int|
                0 <= j < st.out.len() ==> match #[trigger] st.out[j] {
                    GOut::Keep(k) => 0 <= k < n - 1,
                    GOut::HeadingStart(l) => 1 <= l <= 6,
                    _ => true,
                });
        }
        assert(gouts_wf(st.buf, n)) by {
            assert(forall|j: int|
                0 <= j < st.buf.len() ==> match #[trigger] st.buf[j] {
                    GOut::Keep(k) => 0 <= k < n - 1,
                    GOut::HeadingStart(l) => 1 <= l <= 6,
                    _ => true,
                });
        }
        let st2 = spec_pipe_fold(codes, n, from, index, store);
        assert(st2 == spec_pipe_step(st, spec_info_of(codes[n - 1]), n - 1, from, index, store));
        assert(gouts_wf(st.out + st.buf, n));
        assert(gouts_wf(st2.out, n) && gouts_wf(st2.buf, n)) by {
            match spec_info_of(codes[n - 1]) {
                MdInfo::HeadingStart(_l) => {},
                MdInfo::HeadingEnd => {},
                MdInfo::Text(_t) => {},
                MdInfo::LinkStart { inline: _, dest: _, title: _ } => {},
                MdInfo::LinkEnd { dest: _ } => {},
                MdInfo::Other => {},
            }
        }
    }
}

/// The view of an optional destination.
pub open spec fn opt_view(o: Option<String>) -> Option<Seq<char>> {
    match o {
        Some(s) => Some(s@),
        None => None,
    }
}

/// Whether an internal link target is known to the site.
pub fn link_target_known(from: &str, dest: &str, index: &PathIndex) -> (r: bool)
    ensures
        r == spec_link_known(from@, dest@, index@),
{
    let segs = resolve_link_segs(from, dest);
    if segs.len() == 0 {
        return true;
    }
    let joined = join_path(&segs);
    if index.contains(joined.as_str()) {
        return true;
    }
    let mut t = str_to_string(joined.as_str());
    t.append("/");
    t.append("index.md");
    proof {
        reveal_strlit("/");
        reveal_strlit("index.md");
        assert("/"@ =~= seq!['/']);
        assert("index.md"@ =~= crate::links::seg_index_md());
        lemma_join_push(segs.deep_view(), crate::links::seg_index_md());
        assert(t@ == spec_index_md_of(segs.deep_view()));
    }
    index.contains(t.as_str())
}

/// Builds the warning for a dangling internal link.
fn broken_warning(from: &str, dest: &str) -> (r: String)
    ensures
        r@ == spec_broken_warning(from@, dest@),
{
    let mut s = str_to_string("broken link in ");
    s.append(from);
    s.append(": ");
    s.append(dest);
    proof {
        assert(s@ =~= spec_broken_warning(from@, dest@));
    }
    s
}

/// Builds the opening anchor markup for an external link.
fn ext_anchor(dest: &str) -> (r: String)
    ensures
        r@ == spec_ext_anchor(dest@),
{
    let mut s = str_to_string("<a href=\"");
    s.append(dest);
    s.append("\" target=\"_blank\" rel=\"noopener noreferrer\">");
    proof {
        assert(s@ =~= spec_ext_anchor(dest@));
    }
    s
}

/// The single pass over the events: classifies each event and folds
/// `spec_pipe_step`, yielding the output instructions, the page title and the
/// broken-link warnings.
#[verifier::rlimit(100)]
pub fn transform_events<'a>(
    events: &Vec<Event<'a>>,
    from: &str,
    index: &PathIndex,
    store: &MetadataStore,
) -> (r: (Vec<OutEv>, String, Vec<String>))
    ensures
        ({
            let res = spec_pipe_result(
                events@.map_values(|e: Event| ev_code(e)),
                from@,
                index@,
                store@,
            );
            &&& gouts_of(r.0@) == res.0
            &&& r.1@ == res.1
            &&& r.2.deep_view() == res.2
        }),
        gouts_wf(gouts_of(r.0@), events@.len() as int),
{
    let ghost codes = events@.map_values(|e: Event| ev_code(e));
    let n = events.len();
    let mut out: Vec<OutEv> = Vec::new();
    let mut title_h1 = String::new();
    let mut warnings: Vec<String> = Vec::new();
    let mut in_h1 = false;
    let mut first_found = false;
    let mut in_link = false;
    let mut cur_dest: Option<String> = None;
    let mut buf: Vec<OutEv> = Vec::new();
    let mut buf_text = String::new();
    let mut auto = false;
    let mut i: usize = 0;
    proof {
        let g0 = spec_pipe_fold(codes, 0, from@, index@, store@);
        assert(gouts_of(out@) =~= g0.out);
        assert(warnings.deep_view() =~= g0.warns);
        assert(gouts_of(buf@) =~= g0.buf);
    }
    while i < n
        invariant
            n == events@.len(),
            codes == events@.map_values(|e: Event| ev_code(e)),
            i <= n,
            ({
                let g = spec_pipe_fold(codes, i as int, from@, index@, store@);
                &&& gouts_of(out@) == g.out
                &&& title_h1@ == g.title_h1
                &&& warnings.deep_view() == g.warns
                &&& in_h1 == g.in_h1
                &&& first_found == g.first_found
                &&& in_link == g.in_link
                &&& opt_view(cur_dest) == g.cur_dest
                &&& gouts_of(buf@) == g.buf
                &&& buf_text@ == g.buf_text
                &&& auto == g.auto
            }),
        decreases n - i,
    {
        let ghost g = spec_pipe_fold(codes, i as int, from@, index@, store@);
        let ghost g2 = spec_pipe_fold(codes, i + 1, from@, index@, store@);
        proof {
            assert(codes[i as int] == ev_code(events@[i as int]));
            assert(g2 == spec_pipe_step(
                g,
                spec_info_of(codes[i as int]),
                i as int,
                from@,
                index@,
                store@,
            ));
        }
        let info = event_info(&events[i]);
        match info {
            MdInfo::HeadingStart(_level) => {
                if !first_found {
                    first_found = true;
                    in_h1 = true;
                    out.push(OutEv::NewHeadingStart(1));
                    proof {
                        assert(gouts_of(out@) =~= g.out.push(GOut::HeadingStart(1)));
                    }
                } else {
                    out.push(OutEv::Keep(i));
                    proof {
                        assert(gouts_of(out@) =~= g.out.push(GOut::Keep(i as int)));
                    }
                }
            },
            MdInfo::HeadingEnd => {
                if in_h1 {
                    in_h1 = false;
                    out.push(OutEv::NewHtml(str_to_string("</h1>")));
                    proof {
                        assert(gouts_of(out@) =~= g.out.push(GOut::Html("</h1>"@)));
                    }
                } else {
                    out.push(OutEv::Keep(i));
                    proof {
                        assert(gouts_of(out@) =~= g.out.push(GOut::Keep(i as int)));
                    }
                }
            },
            MdInfo::Text(t) => {
                let ghost mid_title = if g.in_h1 {
                    g.title_h1 + t@
                } else {
                    g.title_h1
                };
                if in_h1 {
                    title_h1.append(t.as_str());
                }
                proof {
                    assert(title_h1@ == mid_title);
                }
                if in_link {
                    let trimmed = trim_of(t.as_str());
                    let low = lowercase(trimmed.as_str());
                    if str_eq(low.as_str(), "{title}") {
                        auto = true;
                    }
                    proof {
                        assert(auto == (g.auto || spec_is_auto_token(t@)));
                    }
                    buf.push(OutEv::Keep(i));
                    buf_text.append(t.as_str());
                    proof {
                        assert(gouts_of(buf@) =~= g.buf.push(GOut::Keep(i as int)));
                    }
                } else {
                    out.push(OutEv::Keep(i));
                    proof {
                        assert(gouts_of(out@) =~= g.out.push(GOut::Keep(i as int)));
                    }
                }
            },
            MdInfo::LinkStart { inline, dest, title } => {
                in_link = true;
                buf = Vec::new();
                buf_text = String::new();
                auto = false;
                proof {
                    assert(gouts_of(buf@) =~= Seq::<GOut>::empty());
                }
                let ext = str_starts_with(dest.as_str(), "http") || str_starts_with(
                    dest.as_str(),
                    "ftp",
                );
                if inline && !ext {
                    let known = link_target_known(from, dest.as_str(), index);
                    if !known {
                        let ghost w0 = warnings.deep_view();
                        warnings.push(broken_warning(from, dest.as_str()));
                        proof {
                            assert(warnings.deep_view() =~= w0.push(
                                spec_broken_warning(from@, dest@),
                            ));
                        }
                    }
                    let new_dest = rewrite_link_to_relative(from, dest.as_str(), index);
                    let ghost titlev = title@;
                    out.push(OutEv::NewLinkStart { dest: new_dest, title });
                    proof {
                        assert(gouts_of(out@) =~= g.out.push(
                            GOut::LinkStart(spec_rewrite(from@, dest@, index@), titlev),
                        ));
                    }
                    cur_dest = Some(dest);
                } else if ext {
                    let anchor = ext_anchor(dest.as_str());
                    out.push(OutEv::NewHtml(anchor));
                    proof {
                        assert(gouts_of(out@) =~= g.out.push(GOut::Html(spec_ext_anchor(dest@))));
                    }
                    cur_dest = Some(dest);
                } else {
                    cur_dest = None;
                    out.push(OutEv::Keep(i));
                    proof {
                        assert(gouts_of(out@) =~= g.out.push(GOut::Keep(i as int)));
                    }
                }
            },
            MdInfo::LinkEnd { dest } => {
                let ext = str_starts_with(dest.as_str(), "http") || str_starts_with(
                    dest.as_str(),
                    "ftp",
                );
                let is_empty = buf.len() == 0;
                if auto || is_empty {
                    match &cur_dest {
                        Some(orig) => {
                            if ext {
                                out.push(OutEv::NewText(orig.clone()));
                                proof {
                                    assert(gouts_of(out@) =~= g.out.push(
                                        GOut::Text(g.cur_dest->0),
                                    ));
                                }
                            } else {
                                match get_link_title(from, orig.as_str(), store, index) {
                                    Some(t) => {
                                        let ghost tv = t@;
                                        out.push(OutEv::NewText(t));
                                        proof {
                                            assert(gouts_of(out@) =~= g.out.push(GOut::Text(tv)));
                                        }
                                    },
                                    None => {
                                        out.append(&mut buf);
                                        proof {
                                            assert(gouts_of(out@) =~= g.out + g.buf);
                                        }
                                    },
                                }
                            }
                        },
                        None => {
                            out.append(&mut buf);
                            proof {
                                assert(gouts_of(out@) =~= g.out + g.buf);
                            }
                        },
                    }
                } else {
                    let mut replaced = false;
                    match &cur_dest {
                        Some(orig) => {
                            if !ext {
                                let bt = trim_of(buf_text.as_str());
                                let ot = trim_of(orig.as_str());
                                if str_eq(bt.as_str(), ot.as_str()) {
                                    match get_link_title(from, orig.as_str(), store, index) {
                                        Some(t) => {
                                            let ghost tv = t@;
                                            out.push(OutEv::NewText(t));
                                            replaced = true;
                                            proof {
                                                assert(gouts_of(out@) =~= g.out.push(
                                                    GOut::Text(tv),
                                                ));
                                            }
                                        },
                                        None => {},
                                    }
                                }
                            }
                        },
                        None => {},
                    }
                    if !replaced {
                        out.append(&mut buf);
                        proof {
                            assert(gouts_of(out@) =~= g.out + g.buf);
                        }
                    }
                }
                in_link = false;
                cur_dest = None;
                buf = Vec::new();
                buf_text = String::new();
                auto = false;
                proof {
                    assert(gouts_of(buf@) =~= Seq::<GOut>::empty());
                }
                let ghost out1v = gouts_of(out@);
                if ext {
                    out.push(OutEv::NewHtml(str_to_string("</a>")));
                    proof {
                        assert(gouts_of(out@) =~= out1v.push(GOut::Html("</a>"@)));
                    }
                } else {
                    out.push(OutEv::Keep(i));
                    proof {
                        assert(gouts_of(out@) =~= out1v.push(GOut::Keep(i as int)));
                    }
                }
                proof {
                    assert(gouts_of(out@) =~= g2.out);
                }
            },
            MdInfo::Other => {
                if in_link {
                    buf.push(OutEv::Keep(i));
                    proof {
                        assert(gouts_of(buf@) =~= g.buf.push(GOut::Keep(i as int)));
                    }
                } else {
                    out.push(OutEv::Keep(i));
                    proof {
                        assert(gouts_of(out@) =~= g.out.push(GOut::Keep(i as int)));
                    }
                }
            },
        }
        i = i + 1;
    }
    proof {
        lemma_fold_wf(codes, n as int, from@, index@, store@);
    }
    let title = if title_h1.unicode_len() > 0 {
        title_h1
    } else {
        str_to_string(from)
    };
    (out, title, warnings)
}

/// The code each instruction re-emits or synthesizes.
pub open spec fn spec_out_code(o: GOut, codes: Seq<nat>) -> nat {
    match o {
        GOut::Keep(i) => codes[i],
        GOut::Text(s) => spec_code_text(s),
        GOut::Html(s) => spec_code_html(s),
        GOut::HeadingStart(l) => spec_code_heading_start(l),
        GOut::LinkStart(d, t) => spec_code_link_start(d, t),
    }
}

/// The event codes a list of instructions emits.
pub open spec fn spec_out_codes(outs: Seq<GOut>, codes: Seq<nat>) -> Seq<nat> {
    outs.map_values(|o: GOut| spec_out_code(o, codes))
}

/// Replays the instructions against the input events, yielding the output
/// event stream.
pub fn apply_out_events<'a>(instrs: Vec<OutEv>, events: &Vec<Event<'a>>) -> (r: Vec<Event<'a>>)
    requires
        gouts_wf(gouts_of(instrs@), events@.len() as int),
    ensures
        r@.map_values(|e: Event| ev_code(e)) == spec_out_codes(
            gouts_of(instrs@),
            events@.map_values(|e: Event| ev_code(e)),
        ),
{
    let ghost codes = events@.map_values(|e: Event| ev_code(e));
    let ghost gs = gouts_of(instrs@);
    let mut r: Vec<Event<'a>> = Vec::new();
    let m = instrs.len();
    let mut j: usize = 0;
    proof {
        assert(r@.map_values(|e: Event| ev_code(e)) =~= spec_out_codes(gs.take(0), codes));
    }
    while j < m
        invariant
            m == instrs@.len(),
            gs == gouts_of(instrs@),
            codes == events@.map_values(|e: Event| ev_code(e)),
            gouts_wf(gs, events@.len() as int),
            j <= m,
            r@.map_values(|e: Event| ev_code(e)) == spec_out_codes(gs.take(j as int), codes),
        decreases m - j,
    {
        proof {
            assert(gs[j as int] == gout_of(instrs@[j as int]));
        }
        let ev: Event<'a> = match &instrs[j] {
            OutEv::Keep(k) => {
                proof {
                    assert(gs[j as int] matches GOut::Keep(kk) && 0 <= kk < events@.len());
                }
                event_dup(&events[*k])
            },
            OutEv::NewText(s) => make_text_event(s.clone()),
            OutEv::NewHtml(s) => make_html_event(s.clone()),
            OutEv::NewHeadingStart(l) => {
                proof {
                    assert(gs[j as int] matches GOut::HeadingStart(ll) && 1 <= ll <= 6);
                }
                make_heading_start(*l)
            },
            OutEv::NewLinkStart { dest, title } => make_link_start(dest.clone(), title.clone()),
        };
        let ghost before = r@.map_values(|e: Event| ev_code(e));
        r.push(ev);
        proof {
            assert(r@.map_values(|e: Event| ev_code(e)) =~= before.push(
                spec_out_code(gs[j as int], codes),
            ));
            assert(gs.take(j + 1) =~= gs.take(j as int).push(gs[j as int]));
            assert(before.push(spec_out_code(gs[j as int], codes)) =~= spec_out_codes(
                gs.take(j + 1),
                codes,
            ));
        }
        j = j + 1;
    }
    proof {
        assert(gs.take(m as int) =~= gs);
    }
    r
}

/// Streams the events of one document through the pipeline: the first heading
/// becomes the page title, internal links are rewritten and validated,
/// external links open hardened anchors, and placeholder or echoed link text
/// is replaced by the target's title.
pub fn process_markdown_events<'a>(
    events: &Vec<Event<'a>>,
    from: &str,
    index: &PathIndex,
    store: &MetadataStore,
) -> (r: (Vec<Event<'a>>, String, Vec<String>))
    ensures
        ({
            let codes = events@.map_values(|e: Event| ev_code(e));
            let res = spec_pipe_result(codes, from@, index@, store@);
            &&& r.0@.map_values(|e: Event| ev_code(e)) == spec_out_codes(res.0, codes)
            &&& r.1@ == res.1
            &&& r.2.deep_view() == res.2
        }),
{
    let (instrs, title, warns) = transform_events(events, from, index, store);
    let evs = apply_out_events(instrs, events);
    (evs, title, warns)
}

/// What rendering one document yields: its HTML, its title, its warnings.
pub open spec fn spec_render_result(
    content: Seq<char>,
    from: Seq<char>,
    index: Seq<Seq<char>>,
    store: Map<Seq<char>, PageMetadata>,
) -> (Seq<char>, Seq<char>, Seq<Seq<char>>) {
    let codes = spec_parse_ext(content);
    let res = spec_pipe_result(codes, from, index, store);
    (spec_html_of(spec_out_codes(res.0, codes)), res.1, res.2)
}

/// Renders one markdown document to its HTML fragment, page title and
/// warnings, with tables, strikethrough, task lists and footnotes enabled.
pub fn render_markdown(content: &str, from: &str, index: &PathIndex, store: &MetadataStore) -> (r:
    (String, String, Vec<String>))
    ensures
        ({
            let res = spec_render_result(content@, from@, index@, store@);
            &&& r.0@ == res.0
            &&& r.1@ == res.1
            &&& r.2.deep_view() == res.2
        }),
{
    let events = parse_markdown_ext(content);
    let (evs, title, warns) = process_markdown_events(&events, from, index, store);
    let html = render_events_html(evs);
    (html, title, warns)
}


/// The text of the first heading: every text event from the first heading
/// start up to the heading end that closes it.
pub open spec fn spec_first_heading_from(
    codes: Seq<nat>,
    i: int,
    in_h: bool,
    acc: Seq<char>,
) -> Seq<char>
    decreases codes.len() - i,
{
    if i < 0 || i >= codes.len() {
        acc
    } else {
        match spec_info_of(codes[i]) {
            MdInfo::HeadingStart(_l) => spec_first_heading_from(codes, i + 1, true, acc),
            MdInfo::Text(t) => spec_first_heading_from(
                codes,
                i + 1,
                in_h,
                if in_h {
                    acc + t@
                } else {
                    acc
                },
            ),
            MdInfo::HeadingEnd => if in_h {
                acc
            } else {
                spec_first_heading_from(codes, i + 1, in_h, acc)
            },
            _ => spec_first_heading_from(codes, i + 1, in_h, acc),
        }
    }
}

/// Collects the first heading's text from an event stream.
pub fn first_heading_text<'a>(events: &Vec<Event<'a>>) -> (r: String)
    ensures
        r@ == spec_first_heading_from(
            events@.map_values(|e: Event| ev_code(e)),
            0,
            false,
            Seq::empty(),
        ),
{
    let ghost codes = events@.map_values(|e: Event| ev_code(e));
    let mut acc = String::new();
    let mut in_h = false;
    let n = events.len();
    let mut i: usize = 0;
    proof {
        assert(acc@ =~= Seq::<char>::empty());
    }
    while i < n
        invariant
            n == events@.len(),
            codes == events@.map_values(|e: Event| ev_code(e)),
            i <= n,
            spec_first_heading_from(codes, 0, false, Seq::empty()) == spec_first_heading_from(
                codes,
                i as int,
                in_h,
                acc@,
            ),
        decreases n - i,
    {
        proof {
            assert(codes[i as int] == ev_code(events@[i as int]));
        }
        let info = event_info(&events[i]);
        match info {
            MdInfo::HeadingStart(_l) => {
                in_h = true;
            },
            MdInfo::Text(t) => {
                if in_h {
                    acc.append(t.as_str());
                }
            },
            MdInfo::HeadingEnd => {
                if in_h {
                    return acc;
                }
            },
            _ => {},
        }
        i = i + 1;
    }
    acc
}

/// The record a document's trailing JSON block denotes; the all-absent record
/// when there is no block or it does not parse against the schema.
pub open spec fn spec_base_metadata(content: Seq<char>) -> PageMetadata {
    match crate::metadata::spec_block_json(content) {
        Some(j) => if crate::jsonio::spec_json_parses(j) && crate::metadata::spec_metadata_ok(
            crate::jsonio::spec_json_parse(j),
        ) {
            crate::metadata::spec_metadata_of(crate::jsonio::spec_json_parse(j))
        } else {
            crate::metadata::spec_default_metadata()
        },
        None => crate::metadata::spec_default_metadata(),
    }
}

/// A metadata block is present but does not parse or fit the schema.
pub open spec fn spec_metadata_broken(content: Seq<char>) -> bool {
    match crate::metadata::spec_block_json(content) {
        Some(j) => !(crate::jsonio::spec_json_parses(j) && crate::metadata::spec_metadata_ok(
            crate::jsonio::spec_json_parse(j),
        )),
        None => false,
    }
}

/// The computed title of a document: its first heading's text, else its
/// `page_title`, else its `nav_title`, else its file name's stem.
pub open spec fn spec_computed_title(path: Seq<char>, content: Seq<char>) -> Seq<char> {
    let m = spec_base_metadata(content);
    let h = spec_first_heading_from(
        spec_parse_plain(crate::metadata::spec_stripped(content)),
        0,
        false,
        Seq::empty(),
    );
    if h.len() > 0 {
        h
    } else if m.page_title is Some {
        m.page_title->0@
    } else if m.nav_title is Some {
        m.nav_title->0@
    } else {
        spec_stem(spec_split(path).last())
    }
}

/// Reads one document's metadata: the trailing block parsed against the
/// schema (with defaults when absent or broken, and an error message when
/// broken), and the computed title filled in.
pub fn metadata_for_content(path: &str, content: &str) -> (r: (PageMetadata, Option<String>))
    ensures
        ({
            let base = spec_base_metadata(content@);
            &&& r.0.page_title == base.page_title
            &&& r.0.nav_title == base.nav_title
            &&& r.0.avoid_generation == base.avoid_generation
            &&& r.0.exclude_from_nav == base.exclude_from_nav
            &&& r.0.keep_json_in_content == base.keep_json_in_content
            &&& r.0.sort_key == base.sort_key
            &&& r.0.include_in_sitemap == base.include_in_sitemap
            &&& r.0.sitemap_changefreq == base.sitemap_changefreq
            &&& r.0.sitemap_priority == base.sitemap_priority
        }),
        r.0.computed_title matches Some(t) && t@ == spec_computed_title(path@, content@),
        r.1 is Some <==> spec_metadata_broken(content@),
{
    let (stripped, json_opt) = crate::metadata::extract_trailing_json(content);
    let mut meta = PageMetadata::default();
    let mut err: Option<String> = None;
    match json_opt {
        None => {},
        Some(j) => {
            match crate::jsonio::parse_json(j.as_str()) {
                Ok(v) => match crate::metadata::parse_page_metadata(&v) {
                    Ok(m) => {
                        meta = m;
                    },
                    Err(_) => {
                        err = Some(str_to_string("metadata block does not fit the schema"));
                    },
                },
                Err(e) => {
                    err = Some(e);
                },
            }
        },
    }
    let events = parse_markdown_plain(stripped.as_str());
    let h = first_heading_text(&events);
    let computed: String = if h.as_str().is_empty() {
        match &meta.page_title {
            Some(t) => t.clone(),
            None => match &meta.nav_title {
                Some(t) => t.clone(),
                None => {
                    let segs = split_path(path);
                    let m = segs.len();
                    proof {
                        assert(segs.deep_view().last() == segs[m - 1]@);
                    }
                    crate::paths::seg_stem(segs[m - 1].as_str())
                },
            },
        }
    } else {
        h
    };
    proof {
        assert(computed@ == spec_computed_title(path@, content@));
    }
    meta.computed_title = Some(computed);
    (meta, err)
}

/// A path naming a markdown document.
pub open spec fn spec_is_md(p: Seq<char>) -> bool {
    crate::paths::spec_has_ext(spec_split(p).last()) && crate::paths::spec_ext(spec_split(p).last())
        == "md"@
}

/// How many documents of the list carry a broken metadata block.
pub open spec fn spec_broken_count(docs: Seq<(String, String)>) -> int
    decreases docs.len(),
{
    if docs.len() == 0 {
        0int
    } else {
        spec_broken_count(docs.drop_last()) + if spec_is_md(docs.last().0@)
            && spec_metadata_broken(docs.last().1@) {
            1int
        } else {
            0int
        }
    }
}

/// The metadata pass over all documents, run to completion before any page is
/// rendered: every markdown document (given as its path and content) gets a
/// record with its computed title, and one error message is kept per broken
/// metadata block.
pub fn load_all_metadata_from_files(docs: &Vec<(String, String)>) -> (r: (
    MetadataStore,
    Vec<String>,
))
    requires
        forall|a: int, b: int| 0 <= a < b < docs@.len() ==> docs@[a].0@ != docs@[b].0@,
    ensures
        forall|j: int|
            0 <= j < docs@.len() && spec_is_md((#[trigger] docs@[j]).0@) ==> {
                let m = r.0@[docs@[j].0@];
                let base = spec_base_metadata(docs@[j].1@);
                &&& r.0@.contains_key(docs@[j].0@)
                &&& m.page_title == base.page_title
                &&& m.nav_title == base.nav_title
                &&& m.avoid_generation == base.avoid_generation
                &&& m.exclude_from_nav == base.exclude_from_nav
                &&& m.keep_json_in_content == base.keep_json_in_content
                &&& m.sort_key == base.sort_key
                &&& m.include_in_sitemap == base.include_in_sitemap
                &&& m.sitemap_changefreq == base.sitemap_changefreq
                &&& m.sitemap_priority == base.sitemap_priority
                &&& (m.computed_title matches Some(t) && t@ == spec_computed_title(
                    docs@[j].0@,
                    docs@[j].1@,
                ))
            },
        forall|k: Seq<char>|
            r.0@.contains_key(k) ==> exists|j: int|
                0 <= j < docs@.len() && (#[trigger] docs@[j]).0@ == k && spec_is_md(k),
        r.1@.len() == spec_broken_count(docs@),
{
    let mut store = MetadataStore::new();
    let mut errors: Vec<String> = Vec::new();
    let n = docs.len();
    let mut i: usize = 0;
    while i < n
        invariant
            n == docs@.len(),
            i <= n,
            forall|a: int, b: int| 0 <= a < b < docs@.len() ==> docs@[a].0@ != docs@[b].0@,
            forall|j: int|
                0 <= j < i && spec_is_md((#[trigger] docs@[j]).0@) ==> {
                    let m = store@[docs@[j].0@];
                    let base = spec_base_metadata(docs@[j].1@);
                    &&& store@.contains_key(docs@[j].0@)
                    &&& m.page_title == base.page_title
                    &&& m.nav_title == base.nav_title
                    &&& m.avoid_generation == base.avoid_generation
                    &&& m.exclude_from_nav == base.exclude_from_nav
                    &&& m.keep_json_in_content == base.keep_json_in_content
                    &&& m.sort_key == base.sort_key
                    &&& m.include_in_sitemap == base.include_in_sitemap
                    &&& m.sitemap_changefreq == base.sitemap_changefreq
                    &&& m.sitemap_priority == base.sitemap_priority
                    &&& (m.computed_title matches Some(t) && t@ == spec_computed_title(
                        docs@[j].0@,
                        docs@[j].1@,
                    ))
                },
            forall|k: Seq<char>|
                store@.contains_key(k) ==> exists|j: int|
                    0 <= j < i && (#[trigger] docs@[j]).0@ == k && spec_is_md(k),
            errors@.len() == spec_broken_count(docs@.take(i as int)),
        decreases n - i,
    {
        proof {
            assert(docs@.take(i + 1).drop_last() =~= docs@.take(i as int));
            assert(docs@.take(i + 1).last() == docs@[i as int]);
        }
        let path = &docs[i].0;
        let segs = split_path(path.as_str());
        let m = segs.len();
        proof {
            assert(segs.deep_view().last() == segs[m - 1]@);
        }
        if crate::paths::seg_ext_is(segs[m - 1].as_str(), "md") {
            let (meta, err) = metadata_for_content(path.as_str(), docs[i].1.as_str());
            store.insert(str_to_string(path.as_str()), meta);
            match err {
                Some(e) => {
                    errors.push(e);
                },
                None => {},
            }
        }
        i = i + 1;
    }
    proof {
        assert(docs@.take(n as int) =~= docs@);
    }
    (store, errors)
}


/// The leftmost markdown link whose target ends in `.md`, at or after a
/// position: the bounds of the whole `[text](target.md)` match and of the
/// target inside it; a function of the text and the position.
pub uninterp spec fn spec_next_md_link(s: Seq<char>, from: int) -> Option<(int, int, int, int)>;

/// The leftmost image link with a raster or vector image target, at or after
/// a position, with the bounds of the match and of the target; a function of
/// the text and the position.
pub uninterp spec fn spec_next_img_link(s: Seq<char>, from: int) -> Option<(int, int, int, int)>;

/// Relies on regex captures from an offset with the markdown-link pattern
/// `\[[^\]]+\]\(([^):]+\.md)\)`; byte offsets are converted to character
/// positions. The constant pattern is valid.
#[verifier::external_body]
fn find_md_link(s: &str, from: usize) -> (r: Option<(usize, usize, usize, usize)>)
    requires
        from <= s@.len(),
    ensures
        match r {
            Some(m) => spec_next_md_link(s@, from as int) == Some(
                (m.0 as int, m.1 as int, m.2 as int, m.3 as int),
            ) && from <= m.0 && m.0 <= m.2 <= m.3 <= m.1 && m.0 < m.1 <= s@.len(),
            None => spec_next_md_link(s@, from as int) is None,
        },
{
    let re = regex::Regex::new(r"\[[^\]]+\]\(([^):]+\.md)\)").unwrap();
    let bfrom: usize = s.chars().take(from).map(|c| c.len_utf8()).sum();
    re.captures_at(s, bfrom).map(|c| {
        let (w, g) = (c.get(0).unwrap(), c.get(1).unwrap());
        let chars_to = |b: usize| s[..b].chars().count();
        (chars_to(w.start()), chars_to(w.end()), chars_to(g.start()), chars_to(g.end()))
    })
}

/// Relies on regex captures from an offset with the image-link pattern
/// `!\[[^\]]*\]\(([^)]+\.(png|jpe?g|gif|svg))\)`; byte offsets are converted
/// to character positions. The constant pattern is valid.
#[verifier::external_body]
fn find_img_link(s: &str, from: usize) -> (r: Option<(usize, usize, usize, usize)>)
    requires
        from <= s@.len(),
    ensures
        match r {
            Some(m) => spec_next_img_link(s@, from as int) == Some(
                (m.0 as int, m.1 as int, m.2 as int, m.3 as int),
            ) && from <= m.0 && m.0 <= m.2 <= m.3 <= m.1 && m.0 < m.1 <= s@.len(),
            None => spec_next_img_link(s@, from as int) is None,
        },
{
    let re = regex::Regex::new(r"!\[[^\]]*\]\(([^)]+\.(png|jpe?g|gif|svg))\)").unwrap();
    let bfrom: usize = s.chars().take(from).map(|c| c.len_utf8()).sum();
    re.captures_at(s, bfrom).map(|c| {
        let (w, g) = (c.get(0).unwrap(), c.get(1).unwrap());
        let chars_to = |b: usize| s[..b].chars().count();
        (chars_to(w.start()), chars_to(w.end()), chars_to(g.start()), chars_to(g.end()))
    })
}

/// The warnings the document-level scan of one link kind produces, from a
/// position on: one warning per matched link whose target is unknown to the
/// site.
pub open spec fn spec_scan_warnings(
    s: Seq<char>,
    rel: Seq<char>,
    index: Seq<Seq<char>>,
    from: int,
    img: bool,
) -> Seq<Seq<char>>
    decreases s.len() - from,
{
    if from < 0 || from > s.len() {
        seq![]
    } else {
        let next = if img {
            spec_next_img_link(s, from)
        } else {
            spec_next_md_link(s, from)
        };
        match next {
            None => seq![],
            Some(m) => {
                if from <= m.0 && m.0 <= m.2 <= m.3 <= m.1 && m.0 < m.1 <= s.len() {
                    let target = s.subrange(m.2, m.3);
                    let rest = spec_scan_warnings(s, rel, index, m.1, img);
                    if spec_link_known(rel, target, index) {
                        rest
                    } else {
                        seq![spec_broken_warning(rel, target)] + rest
                    }
                } else {
                    seq![]
                }
            },
        }
    }
}

/// Scans a document's raw text for markdown links to `.md` files and for
/// image links, and reports one warning per link whose target is unknown to
/// the site; the build never stops over them.
pub fn check_broken_links(content: &str, rel_path: &str, index: &PathIndex) -> (r: Vec<String>)
    ensures
        r.deep_view() == spec_scan_warnings(content@, rel_path@, index@, 0, false)
            + spec_scan_warnings(content@, rel_path@, index@, 0, true),
{
    let mut out: Vec<String> = Vec::new();
    let first = scan_link_kind(content, rel_path, index, false);
    let second = scan_link_kind(content, rel_path, index, true);
    let ghost fv = first.deep_view();
    let ghost sv = second.deep_view();
    let mut f = first;
    let mut g = second;
    out.append(&mut f);
    out.append(&mut g);
    proof {
        assert(out.deep_view() =~= fv + sv);
    }
    out
}

/// Scans a document's raw text for image links alone and reports one warning
/// per image whose target is unknown to the site; the event pipeline already
/// covers document links, so a caller pairing the two warns once per link.
pub fn check_broken_image_links(content: &str, rel_path: &str, index: &PathIndex) -> (r: Vec<
    String,
>)
    ensures
        r.deep_view() == spec_scan_warnings(content@, rel_path@, index@, 0, true),
{
    scan_link_kind(content, rel_path, index, true)
}

/// Scans for one kind of link.
fn scan_link_kind(content: &str, rel_path: &str, index: &PathIndex, img: bool) -> (r: Vec<String>)
    ensures
        r.deep_view() == spec_scan_warnings(content@, rel_path@, index@, 0, img),
{
    let n = content.unicode_len();
    let mut out: Vec<String> = Vec::new();
    let mut from: usize = 0;
    proof {
        assert(out.deep_view() + spec_scan_warnings(content@, rel_path@, index@, 0, img)
            =~= spec_scan_warnings(content@, rel_path@, index@, 0, img));
    }
    loop
        invariant
            n == content@.len(),
            from <= n,
            spec_scan_warnings(content@, rel_path@, index@, 0, img) == out.deep_view()
                + spec_scan_warnings(content@, rel_path@, index@, from as int, img),
        decreases n - from,
    {
        let found = if img {
            find_img_link(content, from)
        } else {
            find_md_link(content, from)
        };
        match found {
            None => {
                proof {
                    assert(spec_scan_warnings(content@, rel_path@, index@, from as int, img)
                        =~= Seq::<Seq<char>>::empty());
                    assert(out.deep_view() + Seq::<Seq<char>>::empty() =~= out.deep_view());
                }
                return out;
            },
            Some(m) => {
                let target = content.substring_char(m.2, m.3);
                proof {
                    assert(target@ =~= content@.subrange(m.2 as int, m.3 as int));
                }
                if !link_target_known(rel_path, target, index) {
                    let ghost before = out.deep_view();
                    out.push(broken_warning(rel_path, target));
                    proof {
                        assert(out.deep_view() =~= before.push(
                            spec_broken_warning(rel_path@, target@),
                        ));
                        assert(before.push(spec_broken_warning(rel_path@, target@))
                            + spec_scan_warnings(content@, rel_path@, index@, m.1 as int, img)
                            =~= before + (seq![spec_broken_warning(rel_path@, target@)]
                            + spec_scan_warnings(content@, rel_path@, index@, m.1 as int, img)));
                    }
                }
                from = m.1;
            },
        }
    }
}

} // verus!
