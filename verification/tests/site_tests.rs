//! End-to-end checks of the library against concrete sites and documents.

use sitegen::html::{convert_urls_to_anchors, format_html_page, generate_breadcrumb_html,
    generate_canonical_url};
use sitegen::index::PathIndex;
use sitegen::links::{get_link_title, resolve_link_path, rewrite_link_to_relative};
use sitegen::metadata::{extract_trailing_json, MetadataStore, PageMetadata};
use sitegen::nav::{build_nav_tree, generate_navigation_html, NavItem};
use sitegen::pipeline::{check_broken_links, load_all_metadata_from_files, metadata_for_content};
use sitegen::site::{classify_file, format_epoch_date, render_index_page, render_page,
    should_render, should_skip_copy, should_skip_html_write, FileAction};
use sitegen::text::{str_lt, str_to_string};
use sitegen::textnorm::{normalize_markdown_content, prepare_content_for_parser};

fn index_of(paths: &[&str]) -> PathIndex {
    let mut ix = PathIndex::new();
    for p in paths {
        ix.push(p.to_string());
    }
    ix
}

fn store_of(docs: &[(&str, &str)]) -> MetadataStore {
    let owned: Vec<(String, String)> = docs
        .iter()
        .map(|(p, c)| (p.to_string(), c.to_string()))
        .collect();
    let (store, _errors) = load_all_metadata_from_files(&owned);
    store
}

fn tree_holds_leaf(item: &NavItem, path: &str) -> bool {
    match item {
        NavItem::File { rel_path, .. } => rel_path == path,
        NavItem::Directory { children, .. } => {
            children.iter().any(|(_, c)| tree_holds_leaf(c, path))
        }
    }
}

#[test]
fn resolve_absolute_idempotent() {
    let a = resolve_link_path("docs/x.md", "../a/b.md");
    assert_eq!(a, "/a/b.md");
    let b = resolve_link_path("somewhere/else.md", &a);
    assert_eq!(b, a);
}

#[test]
fn resolve_confluent_targets() {
    let r1 = resolve_link_path("d/e.md", "a/b/../c.md");
    let r2 = resolve_link_path("d/e.md", "a/c.md");
    assert_eq!(r1, r2);
    assert_eq!(r1, "/d/a/c.md");
}

#[test]
fn resolve_parent_of_root_stays_at_root() {
    assert_eq!(resolve_link_path("a/b.md", "../../../c.md"), "/c.md");
}

#[test]
fn self_link_round_trip() {
    let ix = index_of(&["docs/about.md"]);
    let url = rewrite_link_to_relative("docs/about.md", "/docs/about.md", &ix);
    assert_eq!(url, "about.html");
    assert_eq!(resolve_link_path("docs/about.md", &url), "/docs/about.html");
}

#[test]
fn rewrite_maps_md_to_html() {
    let ix = index_of(&["a.md"]);
    assert_eq!(rewrite_link_to_relative("a.md", "missing.md", &ix), "missing.html");
}

#[test]
fn rewrite_directory_to_index_html() {
    let ix = index_of(&["a.md", "docs/index.md"]);
    assert_eq!(rewrite_link_to_relative("a.md", "docs", &ix), "docs/index.html");
    assert_eq!(
        rewrite_link_to_relative("docs/index.md", "/", &ix),
        "../index.html"
    );
}

#[test]
fn rewrite_crosses_directories() {
    let ix = index_of(&["a/b/c.md", "x/y.md"]);
    assert_eq!(
        rewrite_link_to_relative("a/b/c.md", "/x/y.md", &ix),
        "../../x/y.html"
    );
}

#[test]
fn link_title_prefers_nav_title() {
    let ix = index_of(&["a.md", "b.md"]);
    let store = store_of(&[(
        "b.md",
        "# Heading B\n\n```json\n{\"nav_title\": \"Nav B\", \"page_title\": \"Page B\"}\n```\n",
    )]);
    assert_eq!(
        get_link_title("a.md", "b.html", &store, &ix),
        Some("Nav B".to_string())
    );
    let store2 = store_of(&[("b.md", "# Heading B\n")]);
    assert_eq!(
        get_link_title("a.md", "b.html", &store2, &ix),
        Some("Heading B".to_string())
    );
}

#[test]
fn trailing_json_block_is_found() {
    let content = "hello\n\n```json\n{\"page_title\": \"X\"}\n```\n";
    let (stripped, json) = extract_trailing_json(content);
    assert_eq!(stripped, "hello\n\n");
    assert_eq!(json, Some("{\"page_title\": \"X\"}".to_string()));
    let (same, none) = extract_trailing_json("no block here");
    assert_eq!(same, "no block here");
    assert_eq!(none, None);
}

#[test]
fn metadata_falls_back_on_bad_json() {
    let (meta, err) = metadata_for_content("notes/a.md", "body\n\n```json\n{oops}\n```\n");
    assert!(err.is_some());
    assert_eq!(meta.page_title, None);
    assert_eq!(meta.computed_title, Some("a".to_string()));
}

#[test]
fn metadata_rejects_wrong_member_type() {
    let (meta, err) =
        metadata_for_content("a.md", "x\n\n```json\n{\"exclude_from_nav\": \"yes\"}\n```\n");
    assert!(err.is_some());
    assert_eq!(meta.exclude_from_nav, None);
}

#[test]
fn metadata_reads_the_schema() {
    let content = "x\n\n```json\n{\"page_title\": \"T\", \"nav_title\": \"N\", \
                   \"avoid_generation\": true, \"exclude_from_nav\": false, \
                   \"sort_key\": \"0\", \"include_in_sitemap\": true, \
                   \"sitemap_changefreq\": \"weekly\", \"sitemap_priority\": 0.8, \
                   \"unknown_member\": [1]}\n```\n";
    let (meta, err) = metadata_for_content("a.md", content);
    assert!(err.is_none());
    assert_eq!(meta.page_title, Some("T".to_string()));
    assert_eq!(meta.nav_title, Some("N".to_string()));
    assert_eq!(meta.avoid_generation, Some(true));
    assert_eq!(meta.exclude_from_nav, Some(false));
    assert_eq!(meta.sort_key, Some("0".to_string()));
    assert_eq!(meta.include_in_sitemap, Some(true));
    assert_eq!(meta.sitemap_changefreq, Some("weekly".to_string()));
    assert_eq!(meta.sitemap_priority, Some("0.8".to_string()));
    assert_eq!(meta.computed_title, Some("T".to_string()));
}

#[test]
fn computed_title_prefers_first_heading() {
    let (meta, _) = metadata_for_content("a.md", "# Hello\n\nmore\n");
    assert_eq!(meta.computed_title, Some("Hello".to_string()));
}

#[test]
fn nav_exclusion_removes_subtree_not_generation() {
    let ix = index_of(&["index.md", "top.md", "docs/index.md", "docs/a.md"]);
    let store = store_of(&[
        ("index.md", "# Home\n"),
        ("top.md", "# Top\n"),
        (
            "docs/index.md",
            "# Docs\n\n```json\n{\"exclude_from_nav\": true}\n```\n",
        ),
        ("docs/a.md", "# A\n"),
    ]);
    let tree = build_nav_tree(&ix, &store, "top.md");
    assert!(tree_holds_leaf(&tree, "top.md"));
    assert!(!tree_holds_leaf(&tree, "docs/a.md"));
    // Generation is untouched by the navigation flag.
    assert!(should_render(store.get("docs/a.md").unwrap()));
    assert!(matches!(classify_file("a.md"), FileAction::RenderMarkdown));
}

#[test]
fn nav_keys_stay_distinct_under_equal_sort_keys() {
    let ix = index_of(&["x/one.md", "y/one.md"]);
    let store = store_of(&[
        ("x/one.md", "```json\n{\"sort_key\": \"same\"}\n```\n"),
        ("y/one.md", "```json\n{\"sort_key\": \"same\"}\n```\n"),
    ]);
    let tree = build_nav_tree(&ix, &store, "x/one.md");
    assert!(tree_holds_leaf(&tree, "x/one.md"));
    assert!(tree_holds_leaf(&tree, "y/one.md"));
}

#[test]
fn nav_marks_current_file() {
    let ix = index_of(&["a.md", "b.md"]);
    let store = store_of(&[("a.md", "# A\n"), ("b.md", "# B\n")]);
    let html = generate_navigation_html(&ix, &store, "a.md");
    assert!(html.contains("current-file"));
    assert!(html.contains("href=\"b.html\""));
}

#[test]
fn nav_collapses_distant_directories() {
    let ix = index_of(&[
        "index.md",
        "deep/sub/page.md",
        "deep/sub/inner/leaf.md",
        "other/sub2/far.md",
    ]);
    let store = store_of(&[("index.md", "# Home\n")]);
    let html = generate_navigation_html(&ix, &store, "deep/sub/page.md");
    // The branch holding the current page is expanded and pre-opened.
    assert!(html.contains("<details open>"));
    // The distant nested directory is collapsed to a single link.
    assert!(html.contains("title=\"other/sub2\""));
    assert!(!html.contains("title=\"other/sub2/far.md\""));
}

#[test]
fn pipeline_warns_once_on_broken_link() {
    let ix = index_of(&["a.md"]);
    let store = store_of(&[("a.md", "# Hello\n\n[go](missing.md)\n")]);
    let (page, title, warnings) = render_page(
        "# Hello\n\n[go](missing.md)\n",
        "a.md",
        &ix,
        &store,
        "{{ title }}|{{ content }}",
        "https://example.org",
        "2024-01-01",
        "2024-01-02",
        "",
    );
    assert_eq!(title, "Hello");
    assert!(page.contains("href=\"missing.html\""));
    assert_eq!(warnings.len(), 1);
    assert!(warnings[0].contains("missing.md"));
}

#[test]
fn pipeline_promotes_first_heading() {
    let ix = index_of(&["a.md"]);
    let store = store_of(&[("a.md", "## Deep Heading\n\ntext\n")]);
    let (page, title, _) = render_page(
        "## Deep Heading\n\ntext\n",
        "a.md",
        &ix,
        &store,
        "{{ content }}",
        "https://example.org",
        "",
        "",
        "",
    );
    assert_eq!(title, "Deep Heading");
    assert!(page.contains("<h1>Deep Heading</h1>"));
}

#[test]
fn pipeline_hardens_external_links() {
    let ix = index_of(&["a.md"]);
    let store = store_of(&[("a.md", "x\n")]);
    let (page, _, warnings) = render_page(
        "[site](https://example.org/x)\n",
        "a.md",
        &ix,
        &store,
        "{{ content }}",
        "https://example.org",
        "",
        "",
        "",
    );
    assert!(page.contains("target=\"_blank\""));
    assert!(page.contains("rel=\"noopener noreferrer\""));
    assert_eq!(warnings.len(), 0);
}

#[test]
fn pipeline_substitutes_placeholder_link_text() {
    let ix = index_of(&["a.md", "b.md"]);
    let store = store_of(&[
        ("a.md", "x\n"),
        ("b.md", "# Target Title\n"),
    ]);
    let (page, _, _) = render_page(
        "[{title}](b.md)\n",
        "a.md",
        &ix,
        &store,
        "{{ content }}",
        "https://example.org",
        "",
        "",
        "",
    );
    assert!(page.contains(">Target Title</a>"));
}

#[test]
fn index_page_synthesizes_title() {
    let ix = index_of(&["blog/2025/post.md"]);
    let store = store_of(&[("blog/2025/post.md", "# P\n")]);
    let r = render_index_page(
        "blog/2025",
        false,
        "",
        &ix,
        &store,
        "{{ title }}|{{ content }}",
        "https://example.org",
        "",
        "",
        "",
    );
    let (page, title, warnings) = r.expect("an index page is generated");
    assert_eq!(title, "Index: blog/2025");
    assert!(page.contains("<h1>Index: blog/2025</h1>"));
    assert!(warnings.is_empty());
}

#[test]
fn index_page_skipped_when_generation_avoided() {
    let ix = index_of(&["docs/index.md"]);
    let store = store_of(&[(
        "docs/index.md",
        "# D\n\n```json\n{\"avoid_generation\": true}\n```\n",
    )]);
    let r = render_index_page(
        "docs",
        true,
        "# D\n\n```json\n{\"avoid_generation\": true}\n```\n",
        &ix,
        &store,
        "{{ content }}",
        "https://example.org",
        "",
        "",
        "",
    );
    assert!(r.is_none());
}

#[test]
fn repeated_build_is_byte_identical_and_skipped() {
    let ix = index_of(&["a.md", "b.md"]);
    let store = store_of(&[("a.md", "# A\n\n[x](b.md)\n"), ("b.md", "# B\n")]);
    let nav = generate_navigation_html(&ix, &store, "a.md");
    let run = || {
        render_page(
            "# A\n\n[x](b.md)\n",
            "a.md",
            &ix,
            &store,
            "<html>{{ title }}{{ nav_html }}{{ content }}</html>",
            "https://example.org",
            "2024-01-01",
            "2024-01-02",
            &nav,
        )
    };
    let (first, _, _) = run();
    let (second, _, _) = run();
    assert_eq!(first, second);
    assert!(should_skip_html_write(Some(&first), &second));
    assert!(!should_skip_html_write(None, &second));
    assert!(!should_skip_html_write(Some(&str_to_string("old")), &second));
}

#[test]
fn template_tokens_are_substituted() {
    let page = format_html_page(
        "T",
        "/a.md",
        "2020-01-01",
        "2020-01-02",
        "NAV",
        "BODY",
        "<{{ title }}|{{ header_title }}|{{ source_path }}|{{ date_created }}|{{ last_modified }}|{{ nav_html }}|{{ content }}|{{ breadcrumb_html }}|{{ canonical_url }}>",
        "BC",
        "https://e.x/a.html",
    );
    assert_eq!(page, "<T|T|/a.md|2020-01-01|2020-01-02|NAV|BODY|BC|https://e.x/a.html>");
}

#[test]
fn canonical_urls_follow_the_layout() {
    assert_eq!(
        generate_canonical_url("index.md", "https://e.x/"),
        "https://e.x/"
    );
    assert_eq!(
        generate_canonical_url("docs/index.md", "https://e.x"),
        "https://e.x/docs/"
    );
    assert_eq!(
        generate_canonical_url("docs/a.md", "https://e.x"),
        "https://e.x/docs/a.html"
    );
}

#[test]
fn breadcrumb_names_directories() {
    let store = store_of(&[
        ("index.md", "# Home Base\n"),
        ("docs/index.md", "# D\n\n```json\n{\"nav_title\": \"Docs\"}\n```\n"),
        ("docs/a.md", "# Alpha\n"),
    ]);
    let bc = generate_breadcrumb_html("docs/a.md", &store);
    assert!(bc.starts_with("<nav class=\"breadcrumb\">"));
    assert!(bc.contains(">Home Base</a>"));
    assert!(bc.contains(">Docs</a>"));
    assert!(bc.contains("breadcrumb-current\">Alpha</span>"));
}

#[test]
fn normalization_rewrites_comments_and_todos() {
    let (out, modified) = normalize_markdown_content("// note\nTODO: fix it\n");
    assert!(modified);
    assert_eq!(out, " note\n***//TODO: fix it***\n");
    let (out2, modified2) = normalize_markdown_content("plain\n");
    assert!(modified2);
    assert_eq!(out2, "\nplain\n");
}

#[test]
fn normalization_maps_typographic_punctuation() {
    let (out, modified) = normalize_markdown_content("\n\u{201c}x\u{201d} \u{2014} y\u{2026}\n");
    assert!(modified);
    assert_eq!(out, "\n\"x\" -- y...\n");
}

#[test]
fn normalization_leaves_clean_content_alone() {
    let (out, modified) = normalize_markdown_content("\nplain text\n");
    assert!(!modified);
    assert_eq!(out, "\nplain text\n");
}

#[test]
fn preparation_brackets_bare_urls() {
    let meta = PageMetadata::default();
    let out = prepare_content_for_parser("see https://e.x/a now", &meta);
    assert_eq!(out, "see <https://e.x/a> now");
    let out2 = prepare_content_for_parser("(https://e.x/a)", &meta);
    assert_eq!(out2, "(https://e.x/a)");
}

#[test]
fn preparation_strips_or_keeps_the_block() {
    let content = "body\n\n```json\n{\"page_title\": \"X\"}\n```\n";
    let meta = PageMetadata::default();
    assert_eq!(prepare_content_for_parser(content, &meta), "body\n\n");
    let mut keep = PageMetadata::default();
    keep.keep_json_in_content = Some(true);
    assert_eq!(prepare_content_for_parser(content, &keep), content);
}

#[test]
fn bare_urls_become_anchors_outside_existing_ones() {
    let out = convert_urls_to_anchors("go https://a.b now");
    assert_eq!(
        out,
        "go <a href=\"https://a.b\" target=\"_blank\" rel=\"noopener noreferrer\">https://a.b</a> now"
    );
    let kept = "<a href=\"https://a.b\">https://a.b</a>";
    assert_eq!(convert_urls_to_anchors(kept), kept);
}

#[test]
fn files_are_classified_by_name() {
    assert!(matches!(classify_file("style.css"), FileAction::Skip));
    assert!(matches!(classify_file("template.html"), FileAction::Skip));
    assert!(matches!(classify_file("doc.md"), FileAction::RenderMarkdown));
    assert!(matches!(classify_file("pic.png"), FileAction::CopyAsset));
}

#[test]
fn copies_are_skipped_on_identical_bytes() {
    let src = vec![1u8, 2, 3];
    assert!(should_skip_copy(&src, Some(&vec![1u8, 2, 3])));
    assert!(!should_skip_copy(&src, Some(&vec![1u8, 2])));
    assert!(!should_skip_copy(&src, None));
}

#[test]
fn epoch_date_formats_as_ymd() {
    assert_eq!(format_epoch_date(0), "1970-01-01");
    assert_eq!(format_epoch_date(86_400), "1970-01-02");
}

#[test]
fn string_order_is_lexicographic() {
    assert!(str_lt("abc", "abd"));
    assert!(str_lt("ab", "abc"));
    assert!(!str_lt("abc", "abc"));
    assert!(str_lt("Zoo", "apple"));
}

#[test]
fn nav_orders_by_sort_key() {
    let ix = index_of(&["aaa.md", "bbb.md"]);
    let store = store_of(&[
        ("aaa.md", "# First\n\n```json\n{\"sort_key\": \"2\"}\n```\n"),
        ("bbb.md", "# Second\n\n```json\n{\"sort_key\": \"1\"}\n```\n"),
    ]);
    let html = generate_navigation_html(&ix, &store, "other.md");
    let first = html.find(">bbb</a>").expect("entry with the smaller key");
    let second = html.find(">aaa</a>").expect("entry with the larger key");
    assert!(first < second);
}

#[test]
fn directory_children_are_reachable() {
    let ix = index_of(&["docs/a.md"]);
    let store = store_of(&[("docs/a.md", "# A\n")]);
    let mut tree = build_nav_tree(&ix, &store, "docs/a.md");
    let children = tree.get_children_mut().expect("the root is a directory");
    assert_eq!(children.len(), 1);
    let mut leaf = NavItem::File {
        rel_path: "x.md".to_string(),
        name: "x".to_string(),
        is_current: false,
    };
    assert!(leaf.get_children_mut().is_none());
}

#[test]
fn resolve_empty_target_names_own_directory() {
    assert_eq!(resolve_link_path("a/b.md", ""), "/a");
    assert_eq!(resolve_link_path("b.md", ""), "/");
}

#[test]
fn metadata_pass_counts_broken_blocks() {
    let docs = vec![
        ("good.md".to_string(), "# G\n".to_string()),
        ("bad.md".to_string(), "x\n\n```json\n{oops}\n```\n".to_string()),
        ("asset.png".to_string(), String::new()),
    ];
    let (store, errors) = load_all_metadata_from_files(&docs);
    assert_eq!(errors.len(), 1);
    assert!(store.get("good.md").is_some());
    assert!(store.get("asset.png").is_none());
}

#[test]
fn root_index_page_is_synthesized() {
    let ix = index_of(&["a.md"]);
    let store = store_of(&[("a.md", "# A\n")]);
    let r = render_index_page(
        "",
        false,
        "",
        &ix,
        &store,
        "{{ title }}",
        "https://e.x",
        "",
        "",
        "",
    );
    let (page, title, _) = r.expect("the root always gets an index page");
    assert_eq!(title, "Index: Root Index");
    assert_eq!(page, "Index: Root Index");
}

#[test]
fn normalization_of_empty_content_is_identity() {
    let (out, modified) = normalize_markdown_content("");
    assert_eq!(out, "");
    assert!(!modified);
}

#[test]
fn broken_links_are_reported_without_stopping() {
    let ix = index_of(&["a.md", "b.md", "img/pic.png"]);
    let warnings = check_broken_links(
        "[ok](b.md) [bad](missing.md) ![gone](img/absent.png) ![here](img/pic.png)",
        "a.md",
        &ix,
    );
    assert_eq!(warnings.len(), 2);
    assert!(warnings[0].contains("missing.md"));
    assert!(warnings[1].contains("img/absent.png"));
}

#[test]
fn root_readme_is_navigable() {
    let ix = index_of(&["README.md", "a.md"]);
    let store = store_of(&[("README.md", "# Read Me\n"), ("a.md", "# A\n")]);
    let tree = build_nav_tree(&ix, &store, "a.md");
    assert!(tree_holds_leaf(&tree, "README.md"));
    assert!(tree_holds_leaf(&tree, "a.md"));
}

#[test]
fn nav_tree_creates_ancestor_directories() {
    let ix = index_of(&["a/b/c.md", "a/b/index.md"]);
    let store = store_of(&[
        ("a/b/c.md", "# C\n"),
        ("a/b/index.md", "# B\n\n```json\n{\"nav_title\": \"Bee\"}\n```\n"),
    ]);
    let tree = build_nav_tree(&ix, &store, "a/b/c.md");
    // The chain a -> a/b (named from its index.md) -> the leaf.
    fn dir_named(item: &NavItem, path: &str, name: &str) -> bool {
        match item {
            NavItem::Directory { rel_path, name: n, children } => {
                (rel_path == path && n == name)
                    || children.iter().any(|(_, c)| dir_named(c, path, name))
            }
            NavItem::File { .. } => false,
        }
    }
    assert!(dir_named(&tree, "a", "a"));
    assert!(dir_named(&tree, "a/b", "Bee"));
    assert!(tree_holds_leaf(&tree, "a/b/c.md"));
}
