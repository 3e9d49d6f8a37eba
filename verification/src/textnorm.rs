//! Source normalization before parsing: control characters are stripped,
//! typographic punctuation is mapped to ASCII, comment lines are unwrapped,
//! TODO lines are marked up, and bare URLs are bracketed for the parser.

use vstd::prelude::*;

use crate::metadata::extract_trailing_json;
use crate::metadata::spec_stripped;
use crate::metadata::PageMetadata;
use crate::text::{
    is_ws, push_char, replace_all, skip_ws, spec_first_non_ws, spec_is_ws, spec_matches_at,
    spec_replace, str_find_from, str_matches_at, str_to_string,
};

verus! {

/// The text with its control and format characters (other than newline, tab
/// and carriage return) removed: a function of the text alone.
pub uninterp spec fn control_stripped_of(s: Seq<char>) -> Seq<char>;

/// Relies on regex replace_all with the character class of Unicode control
/// and format characters excluding newline, tab and carriage return; the
/// pattern is constant and valid.
#[verifier::external_body]
fn strip_control_chars(s: &str) -> (r: String)
    ensures
        r@ == control_stripped_of(s@),
{
    let re = regex::Regex::new(r"[\p{Cc}\p{Cf}&&[^\n\t\r]]").unwrap();
    re.replace_all(s, "").to_string()
}

/// Typographic punctuation mapped to its ASCII counterpart: carriage returns
/// dropped, hyphens and dashes, spaces, quotes and the ellipsis.
pub open spec fn spec_punct_normalized(s: Seq<char>) -> Seq<char> {
    let s = spec_replace(s, "\r"@, ""@);
    let s = spec_replace(s, "\u{2011}"@, "-"@);
    let s = spec_replace(s, "\u{2013}"@, "-"@);
    let s = spec_replace(s, "\u{2014}"@, "--"@);
    let s = spec_replace(s, "\u{a0}"@, " "@);
    let s = spec_replace(s, "\u{2018}"@, "'"@);
    let s = spec_replace(s, "\u{2019}"@, "'"@);
    let s = spec_replace(s, "\u{201a}"@, "'"@);
    let s = spec_replace(s, "\u{201b}"@, "'"@);
    let s = spec_replace(s, "\u{201c}"@, "\""@);
    let s = spec_replace(s, "\u{201d}"@, "\""@);
    let s = spec_replace(s, "\u{201e}"@, "\""@);
    let s = spec_replace(s, "\u{201f}"@, "\""@);
    let s = spec_replace(s, "\u{2026}"@, "..."@);
    let s = spec_replace(s, "\u{2032}"@, "'"@);
    let s = spec_replace(s, "\u{2033}"@, "\""@);
    spec_replace(s, "\u{2010}"@, "-"@)
}

/// Applies the punctuation mapping.
fn punct_normalize(s: &str) -> (r: String)
    ensures
        r@ == spec_punct_normalized(s@),
{
    proof {
        reveal_strlit("\r");
        reveal_strlit("\u{2011}");
        reveal_strlit("\u{2013}");
        reveal_strlit("\u{2014}");
        reveal_strlit("\u{a0}");
        reveal_strlit("\u{2018}");
        reveal_strlit("\u{2019}");
        reveal_strlit("\u{201a}");
        reveal_strlit("\u{201b}");
        reveal_strlit("\u{201c}");
        reveal_strlit("\u{201d}");
        reveal_strlit("\u{201e}");
        reveal_strlit("\u{201f}");
        reveal_strlit("\u{2026}");
        reveal_strlit("\u{2032}");
        reveal_strlit("\u{2033}");
        reveal_strlit("\u{2010}");
    }
    let s = replace_all(s, "\r", "");
    let s = replace_all(s.as_str(), "\u{2011}", "-");
    let s = replace_all(s.as_str(), "\u{2013}", "-");
    let s = replace_all(s.as_str(), "\u{2014}", "--");
    let s = replace_all(s.as_str(), "\u{a0}", " ");
    let s = replace_all(s.as_str(), "\u{2018}", "'");
    let s = replace_all(s.as_str(), "\u{2019}", "'");
    let s = replace_all(s.as_str(), "\u{201a}", "'");
    let s = replace_all(s.as_str(), "\u{201b}", "'");
    let s = replace_all(s.as_str(), "\u{201c}", "\"");
    let s = replace_all(s.as_str(), "\u{201d}", "\"");
    let s = replace_all(s.as_str(), "\u{201e}", "\"");
    let s = replace_all(s.as_str(), "\u{201f}", "\"");
    let s = replace_all(s.as_str(), "\u{2026}", "...");
    let s = replace_all(s.as_str(), "\u{2032}", "'");
    let s = replace_all(s.as_str(), "\u{2033}", "\"");
    replace_all(s.as_str(), "\u{2010}", "-")
}

/// Splitting into lines with an accumulator.
pub open spec fn spec_lines_acc(s: Seq<char>, cur: Seq<char>) -> Seq<Seq<char>>
    decreases s.len(),
{
    if s.len() == 0 {
        seq![cur]
    } else if s[0] == '\n' {
        seq![cur] + spec_lines_acc(s.drop_first(), seq![])
    } else {
        spec_lines_acc(s.drop_first(), cur.push(s[0]))
    }
}

/// The lines of a text, split at `\n`.
pub open spec fn spec_lines(s: Seq<char>) -> Seq<Seq<char>> {
    spec_lines_acc(s, seq![])
}

/// Lines joined with `\n`.
pub open spec fn spec_unlines(v: Seq<Seq<char>>) -> Seq<char>
    decreases v.len(),
{
    if v.len() == 0 {
        seq![]
    } else if v.len() == 1 {
        v[0]
    } else {
        v[0] + seq!['\n'] + spec_unlines(v.drop_first())
    }
}

/// Splits a text into its lines.
fn split_lines(s: &str) -> (r: Vec<String>)
    ensures
        r.deep_view() == spec_lines(s@),
        r.len() >= 1,
{
    let len = s.unicode_len();
    let mut done: Vec<String> = Vec::new();
    let mut cur = String::new();
    let mut i: usize = 0;
    proof {
        assert(done.deep_view() =~= Seq::<Seq<char>>::empty());
        assert(s@.skip(0) =~= s@);
        assert(cur@ =~= Seq::<char>::empty());
        assert(done.deep_view() + spec_lines_acc(s@, cur@) =~= spec_lines_acc(s@, seq![]));
    }
    while i < len
        invariant
            len == s@.len(),
            i <= len,
            spec_lines(s@) == done.deep_view() + spec_lines_acc(s@.skip(i as int), cur@),
        decreases len - i,
    {
        let c = s.get_char(i);
        proof {
            assert(s@.skip(i as int)[0] == s@[i as int]);
            assert(s@.skip(i as int).drop_first() =~= s@.skip(i + 1));
        }
        if c == '\n' {
            let ghost old_done = done.deep_view();
            done.push(cur);
            proof {
                assert(done.deep_view() =~= old_done.push(done[done.len() - 1]@));
                assert(old_done + (seq![done[done.len() - 1]@] + spec_lines_acc(
                    s@.skip(i + 1),
                    seq![],
                )) =~= done.deep_view() + spec_lines_acc(s@.skip(i + 1), seq![]));
            }
            cur = String::new();
        } else {
            let ghost old_cur = cur@;
            push_char(&mut cur, c);
            proof {
                assert(cur@ =~= old_cur.push(s@[i as int]));
            }
        }
        i = i + 1;
    }
    proof {
        assert(s@.skip(len as int) =~= Seq::<char>::empty());
        assert(spec_lines_acc(Seq::<char>::empty(), cur@) == seq![cur@]);
    }
    let ghost old_done = done.deep_view();
    done.push(cur);
    proof {
        assert(done.deep_view() =~= old_done.push(done[done.len() - 1]@));
        assert(old_done + seq![done[done.len() - 1]@] =~= done.deep_view());
    }
    done
}

/// Joining after appending one more line.
proof fn lemma_unlines_push(v: Seq<Seq<char>>, x: Seq<char>)
    ensures
        spec_unlines(v.push(x)) == if v.len() == 0 {
            x
        } else {
            spec_unlines(v) + seq!['\n'] + x
        },
    decreases v.len(),
{
    if v.len() == 0 {
        assert(v.push(x)[0] =~= x);
        assert(v.push(x).len() == 1);
    } else {
        assert(v.push(x).drop_first() =~= v.drop_first().push(x));
        lemma_unlines_push(v.drop_first(), x);
        if v.len() == 1 {
            assert(spec_unlines(v.push(x)) == v[0] + seq!['\n'] + x);
        } else {
            assert(spec_unlines(v.push(x)) == v[0] + seq!['\n'] + (spec_unlines(v.drop_first())
                + seq!['\n'] + x));
            assert(v[0] + seq!['\n'] + (spec_unlines(v.drop_first()) + seq!['\n'] + x) =~= (v[0]
                + seq!['\n'] + spec_unlines(v.drop_first())) + seq!['\n'] + x);
        }
    }
}

/// Joins lines with `\n`.
fn join_lines(v: &Vec<String>) -> (r: String)
    ensures
        r@ == spec_unlines(v.deep_view()),
{
    let mut out = String::new();
    let mut i: usize = 0;
    let n = v.len();
    while i < n
        invariant
            n == v.len(),
            out@ == spec_unlines(v.deep_view().take(i as int)),
            i <= n,
        decreases n - i,
    {
        if i > 0 {
            out.append("\n");
        }
        out.append(v[i].as_str());
        proof {
            reveal_strlit("\n");
            assert("\n"@ =~= seq!['\n']);
            let w = v.deep_view();
            assert(w.take(i + 1) =~= w.take(i as int).push(w[i as int]));
            lemma_unlines_push(w.take(i as int), w[i as int]);
            assert(w.take(i as int).len() == i);
        }
        i = i + 1;
    }
    proof {
        assert(v.deep_view().take(n as int) =~= v.deep_view());
    }
    out
}

/// Whether the text contains the pattern anywhere.
pub open spec fn spec_contains(s: Seq<char>, pat: Seq<char>) -> bool {
    exists|i: int| spec_matches_at(s, pat, i)
}

/// Decides whether `s` contains `pat`.
fn str_contains(s: &str, pat: &str) -> (r: bool)
    ensures
        r == spec_contains(s@, pat@),
{
    match str_find_from(s, pat, 0) {
        Some(_i) => true,
        None => {
            proof {
                assert forall|i: int| !spec_matches_at(s@, pat@, i) by {
                    if i >= 0 {
                        assert(!spec_matches_at(s@, pat@, i));
                    }
                }
            }
            false
        },
    }
}

/// The first index at or after `i` whose character is not `c`.
pub open spec fn spec_skip_char(s: Seq<char>, i: int, c: char) -> int
    decreases s.len() - i,
{
    if i < 0 {
        0
    } else if i >= s.len() || s[i] != c {
        i
    } else {
        spec_skip_char(s, i + 1, c)
    }
}

/// Finds the first position at or after `i` not holding `c`.
fn skip_char(s: &str, i: usize, c: char) -> (r: usize)
    requires
        i <= s@.len(),
    ensures
        r == spec_skip_char(s@, i as int, c),
        i <= r <= s@.len(),
{
    let slen = s.unicode_len();
    let mut j = i;
    while j < slen
        invariant
            slen == s@.len(),
            i <= j <= slen,
            spec_skip_char(s@, i as int, c) == spec_skip_char(s@, j as int, c),
        decreases slen - j,
    {
        if s.get_char(j) != c {
            return j;
        }
        j = j + 1;
    }
    j
}

/// A line that holds no code fence and opens, after its indentation, with
/// `//` has the indentation and the slashes removed; other lines stand.
pub open spec fn spec_comment_line(line: Seq<char>) -> Seq<char> {
    let a = spec_first_non_ws(line, 0);
    if !spec_contains(line, "```"@) && spec_matches_at(line, "//"@, a) {
        line.skip(spec_skip_char(line, a, '/'))
    } else {
        line
    }
}

/// Applies the comment-line rule to one line.
fn comment_line(line: &str) -> (r: String)
    ensures
        r@ == spec_comment_line(line@),
{
    let a = skip_ws(line, 0);
    if !str_contains(line, "```") && str_matches_at(line, "//", a) {
        let b = skip_char(line, a, '/');
        let n = line.unicode_len();
        let t = line.substring_char(b, n);
        proof {
            assert(t@ =~= line@.skip(spec_skip_char(line@, a as int, '/')));
        }
        str_to_string(t)
    } else {
        str_to_string(line)
    }
}

/// A character the TODO prefix may hold: whitespace or a list or quote
/// marker.
pub open spec fn spec_todo_prefix_char(c: char) -> bool {
    spec_is_ws(c) || c == '*' || c == '>' || c == '-' || c == '+'
}

/// The first index at or after `i` past the TODO prefix characters.
pub open spec fn spec_skip_todo_prefix(s: Seq<char>, i: int) -> int
    decreases s.len() - i,
{
    if i < 0 {
        0
    } else if i >= s.len() || !spec_todo_prefix_char(s[i]) {
        i
    } else {
        spec_skip_todo_prefix(s, i + 1)
    }
}

/// A line opening, after markers, with `TODO` (an optional colon and spaces
/// absorbed) is wrapped in emphasized comment markup; other lines stand.
pub open spec fn spec_todo_line(line: Seq<char>) -> Seq<char> {
    let k = spec_skip_todo_prefix(line, 0);
    if spec_matches_at(line, "TODO"@, k) {
        let m = k + "TODO"@.len();
        let m2 = if m < line.len() && line[m] == ':' {
            m + 1
        } else {
            m
        };
        let m3 = spec_first_non_ws(line, m2);
        line.take(k) + "***//TODO: "@ + line.skip(m3) + "***"@
    } else {
        line
    }
}

/// Whether `c` may stand in a TODO prefix.
fn is_todo_prefix_char(c: char) -> (r: bool)
    ensures
        r == spec_todo_prefix_char(c),
{
    is_ws(c) || c == '*' || c == '>' || c == '-' || c == '+'
}

/// Applies the TODO-line rule to one line.
fn todo_line(line: &str) -> (r: String)
    ensures
        r@ == spec_todo_line(line@),
{
    let n = line.unicode_len();
    let mut k: usize = 0;
    while k < n && is_todo_prefix_char(line.get_char(k))
        invariant
            n == line@.len(),
            k <= n,
            spec_skip_todo_prefix(line@, 0) == spec_skip_todo_prefix(line@, k as int),
        decreases n - k,
    {
        k = k + 1;
    }
    proof {
        reveal_strlit("TODO");
        assert("TODO"@.len() == 4);
    }
    if str_matches_at(line, "TODO", k) {
        let m = k + 4;
        let m2 = if m < n && line.get_char(m) == ':' {
            m + 1
        } else {
            m
        };
        let m3 = skip_ws(line, m2);
        let pre = line.substring_char(0, k);
        let rest = line.substring_char(m3, n);
        proof {
            assert(pre@ =~= line@.take(k as int));
            assert(rest@ =~= line@.skip(m3 as int));
        }
        let mut out = str_to_string(pre);
        out.append("***//TODO: ");
        out.append(rest);
        out.append("***");
        proof {
            assert(out@ =~= line@.take(k as int) + "***//TODO: "@ + line@.skip(m3 as int)
                + "***"@);
        }
        out
    } else {
        str_to_string(line)
    }
}

/// One line pass over a text.
pub open spec fn spec_map_lines(s: Seq<char>, todo: bool) -> Seq<char> {
    spec_unlines(
        spec_lines(s).map_values(
            |l: Seq<char>|
                if todo {
                    spec_todo_line(l)
                } else {
                    spec_comment_line(l)
                },
        ),
    )
}

/// Applies one of the two line rules to every line.
fn map_lines(s: &str, todo: bool) -> (r: String)
    ensures
        r@ == spec_map_lines(s@, todo),
{
    let lines = split_lines(s);
    let n = lines.len();
    let mut out: Vec<String> = Vec::new();
    let mut i: usize = 0;
    proof {
        assert(out.deep_view() =~= lines.deep_view().map_values(
            |l: Seq<char>|
                if todo {
                    spec_todo_line(l)
                } else {
                    spec_comment_line(l)
                },
        ).take(0));
    }
    while i < n
        invariant
            n == lines.len(),
            i <= n,
            out.deep_view() == lines.deep_view().map_values(
                |l: Seq<char>|
                    if todo {
                        spec_todo_line(l)
                    } else {
                        spec_comment_line(l)
                    },
            ).take(i as int),
        decreases n - i,
    {
        let ghost before = out.deep_view();
        let mapped = if todo {
            todo_line(lines[i].as_str())
        } else {
            comment_line(lines[i].as_str())
        };
        out.push(mapped);
        proof {
            let f = |l: Seq<char>|
                if todo {
                    spec_todo_line(l)
                } else {
                    spec_comment_line(l)
                };
            assert(lines.deep_view()[i as int] == lines[i as int]@);
            assert(out.deep_view() =~= before.push(f(lines.deep_view()[i as int])));
            assert(before.push(f(lines.deep_view()[i as int])) =~= lines.deep_view().map_values(
                f,
            ).take(i + 1));
        }
        i = i + 1;
    }
    proof {
        let f = |l: Seq<char>|
            if todo {
                spec_todo_line(l)
            } else {
                spec_comment_line(l)
            };
        assert(lines.deep_view().map_values(f).take(n as int) =~= lines.deep_view().map_values(f));
    }
    join_lines(&out)
}

/// The fully normalized text, before the leading-blank-line rule.
pub open spec fn spec_normal_body(content: Seq<char>) -> Seq<char> {
    spec_map_lines(spec_map_lines(spec_punct_normalized(control_stripped_of(content)), false), true)
}

/// The normalized text: a newline is prepended when the text opens with a
/// non-whitespace character.
pub open spec fn spec_normalized(content: Seq<char>) -> Seq<char> {
    let s = spec_normal_body(content);
    if s.len() == 0 || spec_is_ws(s[0]) {
        s
    } else {
        seq!['\n'] + s
    }
}

/// Whether normalization changed the text.
pub open spec fn spec_was_modified(content: Seq<char>) -> bool {
    let s = spec_normal_body(content);
    s != content || !(s.len() == 0 || spec_is_ws(s[0]))
}

/// Normalizes a markdown source: strips control characters, maps typographic
/// punctuation to ASCII, unwraps comment lines, marks TODO lines up, and
/// opens the text with a blank line; reports whether anything changed.
pub fn normalize_markdown_content(content: &str) -> (r: (String, bool))
    ensures
        r.0@ == spec_normalized(content@),
        r.1 == spec_was_modified(content@),
{
    let stripped = strip_control_chars(content);
    let punct = punct_normalize(stripped.as_str());
    let commented = map_lines(punct.as_str(), false);
    let todoed = map_lines(commented.as_str(), true);
    let starts_ws = todoed.as_str().is_empty() || {
        let c = todoed.as_str().get_char(0);
        is_ws(c)
    };
    let changed = !crate::text::str_eq(todoed.as_str(), content) || !starts_ws;
    if starts_ws {
        (todoed, changed)
    } else {
        let mut out = str_to_string("\n");
        out.append(todoed.as_str());
        proof {
            reveal_strlit("\n");
            assert(out@ =~= seq!['\n'] + todoed@);
        }
        (out, changed)
    }
}

/// The text with each bare URL bracketed for the parser: a function of the
/// text alone.
pub uninterp spec fn urls_bracketed_of(s: Seq<char>) -> Seq<char>;

/// How a matched bare URL is re-emitted: kept as it stands after an opening
/// parenthesis, else wrapped in angle brackets behind its leading context.
pub open spec fn spec_wrap_url(ctx: Seq<char>, url: Seq<char>) -> Seq<char> {
    if ctx == "("@ {
        ctx + url
    } else {
        ctx + "<"@ + url + ">"@
    }
}

/// Re-emits one bare-URL match.
pub fn wrap_url_match(ctx: &str, url: &str) -> (r: String)
    ensures
        r@ == spec_wrap_url(ctx@, url@),
{
    if crate::text::str_eq(ctx, "(") {
        let mut s = str_to_string(ctx);
        s.append(url);
        proof {
            assert(s@ =~= ctx@ + url@);
        }
        s
    } else {
        let mut s = str_to_string(ctx);
        s.append("<");
        s.append(url);
        s.append(">");
        proof {
            assert(s@ =~= ctx@ + "<"@ + url@ + ">"@);
        }
        s
    }
}

/// Relies on regex replace_all with the pattern `(\s|\(|^)(https?://\S+)`:
/// each bare URL, with its one-character leading context, is re-emitted by
/// `wrap_url_match`; a function of the text alone. The constant pattern is
/// valid.
#[verifier::external_body]
fn bracket_bare_urls(s: &str) -> (r: String)
    ensures
        r@ == urls_bracketed_of(s@),
{
    let re = regex::Regex::new(r"(\s|\(|^)(https?://\S+)").unwrap();
    re.replace_all(s, |c: &regex::Captures| wrap_url_match(&c[1], &c[2])).to_string()
}

/// What preparing a document for the parser yields: bare URLs bracketed, and
/// the trailing metadata block stripped unless the document keeps it.
pub open spec fn spec_prepared(content: Seq<char>, meta: PageMetadata) -> Seq<char> {
    let bracketed = urls_bracketed_of(content);
    if meta.keep_json_in_content == Some(true) {
        bracketed
    } else {
        spec_stripped(bracketed)
    }
}

/// Prepares a document for the parser: brackets bare URLs and strips the
/// trailing metadata block unless `keep_json_in_content` is set.
pub fn prepare_content_for_parser(content: &str, meta: &PageMetadata) -> (r: String)
    ensures
        r@ == spec_prepared(content@, *meta),
{
    let bracketed = bracket_bare_urls(content);
    let keep = match meta.keep_json_in_content {
        Some(b) => b,
        None => false,
    };
    if keep {
        bracketed
    } else {
        let (stripped, _json) = extract_trailing_json(bracketed.as_str());
        stripped
    }
}

} // verus!
