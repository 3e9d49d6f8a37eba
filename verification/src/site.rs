//! Per-file processing decisions and whole-page assembly: what each directory
//! entry becomes, when writes are skipped, and how a document or a directory
//! index turns into its final page.

use vstd::prelude::*;

use crate::html::{
    convert_urls_to_anchors, format_html_page, generate_breadcrumb_html, generate_canonical_url,
    spec_breadcrumb, spec_canonical_url, spec_convert_urls, spec_format_html_page,
};
use crate::index::PathIndex;
use crate::metadata::{MetadataStore, PageMetadata};
use crate::nav::spec_meta_of;
use crate::pipeline::{render_markdown, spec_render_result};
use crate::text::{ascii_lower, spec_ascii_lower, str_eq, str_to_string};
use crate::textnorm::{prepare_content_for_parser, spec_prepared};

verus! {

/// The date of a Unix timestamp, in year-month-day form: a function of the
/// timestamp alone.
pub uninterp spec fn date_ymd_of(secs: i64) -> Seq<char>;

/// Relies on chrono's DateTime<Utc> timestamp conversion and `%Y-%m-%d`
/// formatting: the UTC date of the given Unix timestamp, a function of the
/// timestamp alone (the epoch for a timestamp out of chrono's range).
#[verifier::external_body]
pub fn format_epoch_date(secs: i64) -> (r: String)
    ensures
        r@ == date_ymd_of(secs),
{
    let dt = chrono::DateTime::<chrono::Utc>::from_timestamp(secs, 0).unwrap_or_default();
    dt.format("%Y-%m-%d").to_string()
}

/// The run's settings: the source and target directories and verbosity, as
/// the command line supplies them.
pub struct Args {
    pub source: String,
    pub target: String,
    pub verbose: bool,
}

/// What the processing pass does with one file.
pub enum FileAction {
    Skip,
    RenderMarkdown,
    CopyAsset,
}

/// The classification of a file by its name, case-folded ASCII-wise: the
/// template, favicon, and generated or styling file types are skipped,
/// markdown is rendered, everything else is copied verbatim.
pub open spec fn spec_classify_file(file_name: Seq<char>) -> FileAction {
    let lower = spec_ascii_lower(file_name);
    if lower == "template.html"@ || lower == "favicon.ico"@ {
        FileAction::Skip
    } else if crate::paths::spec_has_ext(file_name) && {
        let ext = spec_ascii_lower(crate::paths::spec_ext(file_name));
        ext == "css"@ || ext == "js"@ || ext == "xml"@ || ext == "html"@ || ext == "ico"@
    } {
        FileAction::Skip
    } else if crate::paths::spec_has_ext(file_name) && crate::paths::spec_ext(file_name)
        == "md"@ {
        FileAction::RenderMarkdown
    } else {
        FileAction::CopyAsset
    }
}

/// Classifies one file by its name.
pub fn classify_file(file_name: &str) -> (r: FileAction)
    ensures
        r == spec_classify_file(file_name@),
{
    let lower = ascii_lower(file_name);
    if str_eq(lower.as_str(), "template.html") || str_eq(lower.as_str(), "favicon.ico") {
        return FileAction::Skip;
    }
    match crate::paths::rfind_dot(file_name) {
        Some(p) if p >= 1 => {
            let n = file_name.unicode_len();
            let e = file_name.substring_char(p + 1, n);
            proof {
                assert(e@ =~= crate::paths::spec_ext(file_name@));
            }
            let le = ascii_lower(e);
            if str_eq(le.as_str(), "css") || str_eq(le.as_str(), "js") || str_eq(
                le.as_str(),
                "xml",
            ) || str_eq(le.as_str(), "html") || str_eq(le.as_str(), "ico") {
                return FileAction::Skip;
            }
            if str_eq(e, "md") {
                return FileAction::RenderMarkdown;
            }
            FileAction::CopyAsset
        },
        _ => FileAction::CopyAsset,
    }
}

/// Whether a markdown document is rendered at all: only an explicit
/// `avoid_generation` keeps it out.
pub open spec fn spec_should_render(meta: PageMetadata) -> bool {
    meta.avoid_generation != Some(true)
}

/// Decides whether a markdown document is rendered.
pub fn should_render(meta: &PageMetadata) -> (r: bool)
    ensures
        r == spec_should_render(*meta),
{
    match meta.avoid_generation {
        Some(b) => !b,
        None => true,
    }
}

/// Navigation exclusion never reaches the generation decision: two records
/// agreeing on `avoid_generation` render identically, whatever their
/// `exclude_from_nav` says.
pub proof fn lemma_exclusion_not_generation(m1: PageMetadata, m2: PageMetadata)
    requires
        m1.avoid_generation == m2.avoid_generation,
    ensures
        spec_should_render(m1) == spec_should_render(m2),
{
}

/// Whether a subdirectory is descended into: hidden names are skipped, and a
/// directory whose `index.md` sets `avoid_generation` is skipped whole.
pub open spec fn spec_should_skip_dir(
    dir_name: Seq<char>,
    dir_rel: Seq<char>,
    store: Map<Seq<char>, PageMetadata>,
) -> bool {
    ||| (dir_name.len() > 0 && dir_name[0] == '.')
    ||| spec_meta_of(store, dir_rel + "/index.md"@).avoid_generation == Some(true)
}

/// Decides whether a subdirectory is skipped.
pub fn should_skip_dir(dir_name: &str, dir_rel: &str, store: &MetadataStore) -> (r: bool)
    ensures
        r == spec_should_skip_dir(dir_name@, dir_rel@, store@),
{
    if dir_name.unicode_len() > 0 && dir_name.get_char(0) == '.' {
        return true;
    }
    let mut ix = str_to_string(dir_rel);
    ix.append("/index.md");
    proof {
        assert(ix@ =~= dir_rel@ + "/index.md"@);
    }
    match store.get(ix.as_str()) {
        Some(m) => match m.avoid_generation {
            Some(b) => b,
            None => false,
        },
        None => false,
    }
}

/// A generated file is written only when its content changed: the write is
/// skipped exactly when a file with identical content already stands there.
pub fn should_skip_html_write(existing: Option<&String>, new_html: &str) -> (r: bool)
    ensures
        r == (existing matches Some(e) && e@ == new_html@),
{
    match existing {
        Some(e) => str_eq(e.as_str(), new_html),
        None => false,
    }
}

/// An asset is copied only when its bytes changed: the copy is skipped
/// exactly when the target already holds the same bytes.
pub fn should_skip_copy(source: &Vec<u8>, existing: Option<&Vec<u8>>) -> (r: bool)
    ensures
        r == (existing matches Some(e) && e@ == source@),
{
    match existing {
        Some(e) => {
            let r = e == source;
            proof {
                if e@ =~= source@ {
                    assert(e@ == source@);
                }
            }
            r
        },
        None => false,
    }
}

/// The source path as the page displays it: `/`-prefixed.
pub open spec fn spec_display_path(p: Seq<char>) -> Seq<char> {
    if p.len() > 0 && p[0] == '/' {
        p
    } else {
        seq!['/'] + p
    }
}

/// What rendering one document to its final page yields: the page, its title
/// and the broken-link warnings.
pub open spec fn spec_render_page(
    content: Seq<char>,
    rel: Seq<char>,
    index: Seq<Seq<char>>,
    store: Map<Seq<char>, PageMetadata>,
    template: Seq<char>,
    base_url: Seq<char>,
    date_created: Seq<char>,
    last_modified: Seq<char>,
    nav_html: Seq<char>,
) -> (Seq<char>, Seq<char>, Seq<Seq<char>>) {
    let meta = spec_meta_of(store, rel);
    let prepared = spec_prepared(content, meta);
    let rr = spec_render_result(prepared, rel, index, store);
    let title = match meta.page_title {
        Some(t) => t@,
        None => rr.1,
    };
    let body = spec_convert_urls(rr.0);
    let page = spec_format_html_page(
        title,
        spec_display_path(rel),
        date_created,
        last_modified,
        nav_html,
        body,
        template,
        spec_breadcrumb(rel, store),
        spec_canonical_url(rel, base_url),
    );
    (page, title, rr.2)
}

/// Renders one normalized markdown document to its final page: the prepared
/// content streamed through the pipeline, the title taken from `page_title`
/// or the first heading, bare URLs wrapped, and the template's tokens filled.
pub fn render_page(
    content: &str,
    rel_path: &str,
    index: &PathIndex,
    store: &MetadataStore,
    template: &str,
    base_url: &str,
    date_created: &str,
    last_modified: &str,
    nav_html: &str,
) -> (r: (String, String, Vec<String>))
    ensures
        ({
            let res = spec_render_page(
                content@,
                rel_path@,
                index@,
                store@,
                template@,
                base_url@,
                date_created@,
                last_modified@,
                nav_html@,
            );
            &&& r.0@ == res.0
            &&& r.1@ == res.1
            &&& r.2.deep_view() == res.2
        }),
{
    let default_m = PageMetadata::default();
    let meta: &PageMetadata = match store.get(rel_path) {
        Some(m) => m,
        None => &default_m,
    };
    proof {
        assert(*meta == spec_meta_of(store@, rel_path@));
    }
    let prepared = prepare_content_for_parser(content, meta);
    let rendered = render_markdown(prepared.as_str(), rel_path, index, store);
    let (body_html, title_h1, warnings) = rendered;
    let title: String = match &meta.page_title {
        Some(t) => t.clone(),
        None => title_h1,
    };
    let body = convert_urls_to_anchors(body_html.as_str());
    let display: String = if rel_path.unicode_len() > 0 && rel_path.get_char(0) == '/' {
        str_to_string(rel_path)
    } else {
        let mut d = str_to_string("/");
        d.append(rel_path);
        proof {
            reveal_strlit("/");
            assert(d@ =~= seq!['/'] + rel_path@);
        }
        d
    };
    let breadcrumb = generate_breadcrumb_html(rel_path, store);
    let canonical = generate_canonical_url(rel_path, base_url);
    let page = format_html_page(
        title.as_str(),
        display.as_str(),
        date_created,
        last_modified,
        nav_html,
        body.as_str(),
        template,
        breadcrumb.as_str(),
        canonical.as_str(),
    );
    (page, title, warnings)
}

/// Page rendering is a function of its inputs alone: two renders over the
/// same content, site state and template yield byte-identical pages, so a
/// repeated build writes nothing new.
pub proof fn lemma_render_deterministic(
    content: Seq<char>,
    rel: Seq<char>,
    index: Seq<Seq<char>>,
    store: Map<Seq<char>, PageMetadata>,
    template: Seq<char>,
    base_url: Seq<char>,
    date_created: Seq<char>,
    last_modified: Seq<char>,
    nav_html: Seq<char>,
    out1: Seq<char>,
    out2: Seq<char>,
)
    requires
        out1 == spec_render_page(
            content,
            rel,
            index,
            store,
            template,
            base_url,
            date_created,
            last_modified,
            nav_html,
        ).0,
        out2 == spec_render_page(
            content,
            rel,
            index,
            store,
            template,
            base_url,
            date_created,
            last_modified,
            nav_html,
        ).0,
    ensures
        out1 == out2,
{
}

/// What a directory's generated index page is: nothing when its own
/// `index.md` opts out; else the rendered `index.md` (title from `page_title`
/// or its first heading), or a synthesized stub page for a directory without
/// one.
pub open spec fn spec_index_page(
    rel_dir: Seq<char>,
    has_index_md: bool,
    content: Seq<char>,
    index: Seq<Seq<char>>,
    store: Map<Seq<char>, PageMetadata>,
    template: Seq<char>,
    base_url: Seq<char>,
    date_created: Seq<char>,
    last_modified: Seq<char>,
    nav_html: Seq<char>,
) -> Option<(Seq<char>, Seq<char>, Seq<Seq<char>>)> {
    let ix_path = if rel_dir.len() == 0 {
        "index.md"@
    } else {
        rel_dir + "/index.md"@
    };
    let meta = spec_meta_of(store, ix_path);
    if has_index_md && meta.avoid_generation == Some(true) {
        None
    } else {
        let stripped = crate::metadata::spec_stripped(content);
        let rr = spec_render_result(stripped, ix_path, index, store);
        let title = if has_index_md {
            match meta.page_title {
                Some(t) => t@,
                None => rr.1,
            }
        } else {
            "Index: "@ + (if rel_dir.len() == 0 {
                "Root Index"@
            } else {
                rel_dir
            })
        };
        let body = if has_index_md {
            rr.0
        } else {
            Seq::<char>::empty()
        };
        let body2 = if body.len() == 0 {
            "<h1>"@ + title + "</h1><p>Use the links on the left to access content.</p>"@
        } else {
            body
        };
        let display = spec_display_path(
            if has_index_md {
                ix_path
            } else {
                rel_dir
            },
        );
        let page = spec_format_html_page(
            title,
            display,
            date_created,
            last_modified,
            nav_html,
            body2,
            template,
            spec_breadcrumb(ix_path, store),
            spec_canonical_url(ix_path, base_url),
        );
        Some(
            (
                page,
                title,
                if has_index_md {
                    rr.2
                } else {
                    Seq::<Seq<char>>::empty()
                },
            ),
        )
    }
}

/// Builds a directory's generated index page; a directory without its own
/// `index.md` still gets a page, with a synthesized title naming the
/// directory. Nothing is produced when the directory's `index.md` opts out of
/// generation.
pub fn render_index_page(
    rel_dir: &str,
    has_index_md: bool,
    content: &str,
    index: &PathIndex,
    store: &MetadataStore,
    template: &str,
    base_url: &str,
    date_created: &str,
    last_modified: &str,
    nav_html: &str,
) -> (r: Option<(String, String, Vec<String>)>)
    ensures
        ({
            let res = spec_index_page(
                rel_dir@,
                has_index_md,
                content@,
                index@,
                store@,
                template@,
                base_url@,
                date_created@,
                last_modified@,
                nav_html@,
            );
            match r {
                Some(p) => res matches Some(q) && p.0@ == q.0 && p.1@ == q.1 && p.2.deep_view()
                    == q.2,
                None => res is None,
            }
        }),
{
    let ix_path: String = if rel_dir.is_empty() {
        str_to_string("index.md")
    } else {
        let mut t = str_to_string(rel_dir);
        t.append("/index.md");
        proof {
            assert(t@ =~= rel_dir@ + "/index.md"@);
        }
        t
    };
    let default_m = PageMetadata::default();
    let meta: &PageMetadata = match store.get(ix_path.as_str()) {
        Some(m) => m,
        None => &default_m,
    };
    proof {
        assert(*meta == spec_meta_of(
            store@,
            if rel_dir@.len() == 0 {
                "index.md"@
            } else {
                rel_dir@ + "/index.md"@
            },
        ));
    }
    let avoid = match meta.avoid_generation {
        Some(b) => b,
        None => false,
    };
    if has_index_md && avoid {
        return None;
    }
    let (stripped, _json) = crate::metadata::extract_trailing_json(content);
    let rendered = render_markdown(stripped.as_str(), ix_path.as_str(), index, store);
    let (body_html, title_h1, warnings) = rendered;
    let title: String = if has_index_md {
        match &meta.page_title {
            Some(t) => t.clone(),
            None => title_h1,
        }
    } else {
        let mut t = str_to_string("Index: ");
        if rel_dir.is_empty() {
            t.append("Root Index");
        } else {
            t.append(rel_dir);
        }
        proof {
            assert(t@ =~= "Index: "@ + (if rel_dir@.len() == 0 {
                "Root Index"@
            } else {
                rel_dir@
            }));
        }
        t
    };
    let body: String = if has_index_md {
        body_html
    } else {
        String::new()
    };
    let body2: String = if body.as_str().is_empty() {
        let mut b = str_to_string("<h1>");
        b.append(title.as_str());
        b.append("</h1><p>Use the links on the left to access content.</p>");
        proof {
            assert(b@ =~= "<h1>"@ + title@
                + "</h1><p>Use the links on the left to access content.</p>"@);
        }
        b
    } else {
        body
    };
    let display_src: &str = if has_index_md {
        ix_path.as_str()
    } else {
        rel_dir
    };
    let display: String = if display_src.unicode_len() > 0 && display_src.get_char(0) == '/' {
        str_to_string(display_src)
    } else {
        let mut d = str_to_string("/");
        d.append(display_src);
        proof {
            reveal_strlit("/");
            assert(d@ =~= seq!['/'] + display_src@);
        }
        d
    };
    let breadcrumb = generate_breadcrumb_html(ix_path.as_str(), store);
    let canonical = generate_canonical_url(ix_path.as_str(), base_url);
    let page = format_html_page(
        title.as_str(),
        display.as_str(),
        date_created,
        last_modified,
        nav_html,
        body2.as_str(),
        template,
        breadcrumb.as_str(),
        canonical.as_str(),
    );
    let warns: Vec<String> = if has_index_md {
        warnings
    } else {
        Vec::new()
    };
    proof {
        if !has_index_md {
            assert(warns.deep_view() =~= Seq::<Seq<char>>::empty());
        }
    }
    Some((page, title, warns))
}

} // verus!
