//! Verified utilities on strings: equality, lexicographic order, prefix and
//! suffix tests, and concatenation helpers used throughout the crate.

use vstd::prelude::*;

verus! {

/// Lexicographic order on character sequences, comparing code points left to
/// right; a strict prefix is smaller than the longer sequence.
pub open spec fn spec_str_lt(a: Seq<char>, b: Seq<char>) -> bool
    decreases a.len(),
{
    if b.len() == 0 {
        false
    } else if a.len() == 0 {
        true
    } else if a[0] == b[0] {
        spec_str_lt(a.drop_first(), b.drop_first())
    } else {
        (a[0] as int) < (b[0] as int)
    }
}

/// Comparing two sequences that agree on their first `i` characters reduces
/// to comparing what remains after those characters.
proof fn lemma_str_lt_skip(a: Seq<char>, b: Seq<char>, i: int)
    requires
        0 <= i <= a.len(),
        0 <= i <= b.len(),
        forall|j: int| 0 <= j < i ==> a[j] == b[j],
    ensures
        spec_str_lt(a, b) == spec_str_lt(a.skip(i), b.skip(i)),
    decreases i,
{
    if i > 0 {
        assert(a[0] == b[0]);
        lemma_str_lt_skip(a.drop_first(), b.drop_first(), i - 1);
        assert(a.drop_first().skip(i - 1) =~= a.skip(i));
        assert(b.drop_first().skip(i - 1) =~= b.skip(i));
    } else {
        assert(a.skip(0) =~= a);
        assert(b.skip(0) =~= b);
    }
}

/// Character-wise equality of two string slices.
pub fn str_eq(a: &str, b: &str) -> (r: bool)
    ensures
        r == (a@ == b@),
{
    let alen = a.unicode_len();
    let blen = b.unicode_len();
    if alen != blen {
        proof {
            assert(a@.len() != b@.len());
        }
        return false;
    }
    let mut i: usize = 0;
    while i < alen
        invariant
            alen == a@.len(),
            blen == b@.len(),
            alen == blen,
            i <= alen,
            forall|j: int| 0 <= j < i ==> a@[j] == b@[j],
        decreases alen - i,
    {
        if a.get_char(i) != b.get_char(i) {
            proof {
                assert(a@[i as int] != b@[i as int]);
            }
            return false;
        }
        i = i + 1;
    }
    proof {
        assert(a@ =~= b@);
    }
    true
}

/// Decides `spec_str_lt(a@, b@)` by scanning both strings once.
pub fn str_lt(a: &str, b: &str) -> (r: bool)
    ensures
        r == spec_str_lt(a@, b@),
{
    let alen = a.unicode_len();
    let blen = b.unicode_len();
    let mut i: usize = 0;
    loop
        invariant
            alen == a@.len(),
            blen == b@.len(),
            i <= alen,
            i <= blen,
            forall|j: int| 0 <= j < i ==> a@[j] == b@[j],
        decreases alen - i,
    {
        if i == alen || i == blen {
            proof {
                lemma_str_lt_skip(a@, b@, i as int);
            }
            return alen < blen;
        }
        let ca = a.get_char(i);
        let cb = b.get_char(i);
        if ca != cb {
            proof {
                lemma_str_lt_skip(a@, b@, i as int);
                assert(a@.skip(i as int)[0] == a@[i as int]);
                assert(b@.skip(i as int)[0] == b@[i as int]);
            }
            let r = (ca as u32) < (cb as u32);
            proof {
                assert(r == ((ca as int) < (cb as int)));
            }
            return r;
        }
        i = i + 1;
    }
}

/// The lexicographic order is transitive.
pub proof fn lemma_str_lt_trans(a: Seq<char>, b: Seq<char>, c: Seq<char>)
    requires
        spec_str_lt(a, b),
        spec_str_lt(b, c),
    ensures
        spec_str_lt(a, c),
    decreases a.len() + b.len() + c.len(),
{
    if a.len() == 0 {
    } else {
        if a[0] == b[0] {
            if b[0] == c[0] {
                lemma_str_lt_trans(a.drop_first(), b.drop_first(), c.drop_first());
            }
        }
    }
}

/// Different sequences are ordered one way or the other.
pub proof fn lemma_str_lt_connected(a: Seq<char>, b: Seq<char>)
    requires
        a != b,
    ensures
        spec_str_lt(a, b) || spec_str_lt(b, a),
    decreases a.len(),
{
    if a.len() == 0 {
        assert(b.len() > 0) by {
            if b.len() == 0 {
                assert(a =~= b);
            }
        }
    } else if b.len() == 0 {
    } else if a[0] == b[0] {
        assert(a.drop_first() != b.drop_first()) by {
            if a.drop_first() == b.drop_first() {
                assert(a.drop_first().len() == b.drop_first().len());
                assert(a.len() == b.len());
                assert forall|i: int| 0 <= i < a.len() implies a[i] == b[i] by {
                    if i > 0 {
                        assert(a.drop_first()[i - 1] == b.drop_first()[i - 1]);
                    }
                }
                assert(a =~= b);
            }
        }
        lemma_str_lt_connected(a.drop_first(), b.drop_first());
    } else {
        assert(a[0] as int != b[0] as int);
    }
}

/// The order is irreflexive: no sequence is before itself.
pub proof fn lemma_str_lt_irrefl(a: Seq<char>)
    ensures
        !spec_str_lt(a, a),
    decreases a.len(),
{
    if a.len() > 0 {
        lemma_str_lt_irrefl(a.drop_first());
    }
}

/// True when `p` is a prefix of `s`.
pub open spec fn spec_starts_with(s: Seq<char>, p: Seq<char>) -> bool {
    p.len() <= s.len() && s.take(p.len() as int) == p
}

/// True when `p` is a suffix of `s`.
pub open spec fn spec_ends_with(s: Seq<char>, p: Seq<char>) -> bool {
    p.len() <= s.len() && s.skip(s.len() - p.len()) == p
}

/// Decides whether `s` begins with `p`.
pub fn str_starts_with(s: &str, p: &str) -> (r: bool)
    ensures
        r == spec_starts_with(s@, p@),
{
    let slen = s.unicode_len();
    let plen = p.unicode_len();
    if plen > slen {
        return false;
    }
    let mut i: usize = 0;
    while i < plen
        invariant
            slen == s@.len(),
            plen == p@.len(),
            plen <= slen,
            i <= plen,
            forall|j: int| 0 <= j < i ==> s@[j] == p@[j],
        decreases plen - i,
    {
        if s.get_char(i) != p.get_char(i) {
            proof {
                assert(s@[i as int] != p@[i as int]);
                assert(s@.take(plen as int)[i as int] == s@[i as int]);
            }
            return false;
        }
        i = i + 1;
    }
    proof {
        assert(s@.take(plen as int) =~= p@);
    }
    true
}

/// Decides whether `s` ends with `p`.
pub fn str_ends_with(s: &str, p: &str) -> (r: bool)
    ensures
        r == spec_ends_with(s@, p@),
{
    let slen = s.unicode_len();
    let plen = p.unicode_len();
    if plen > slen {
        return false;
    }
    let off = slen - plen;
    let mut i: usize = 0;
    while i < plen
        invariant
            slen == s@.len(),
            plen == p@.len(),
            plen <= slen,
            off == slen - plen,
            i <= plen,
            forall|j: int| 0 <= j < i ==> s@[off + j] == p@[j],
        decreases plen - i,
    {
        if s.get_char(off + i) != p.get_char(i) {
            proof {
                assert(s@[off + i] != p@[i as int]);
                assert(s@.skip(off as int)[i as int] == s@[off + i]);
            }
            return false;
        }
        i = i + 1;
    }
    proof {
        assert(s@.skip(off as int) =~= p@);
    }
    true
}

/// `pat` occurs in `s` at position `i`.
pub open spec fn spec_matches_at(s: Seq<char>, pat: Seq<char>, i: int) -> bool {
    0 <= i && i + pat.len() <= s.len() && s.subrange(i, i + pat.len()) == pat
}

/// Whether `pat` occurs in `s` at position `i`.
pub fn str_matches_at(s: &str, pat: &str, i: usize) -> (r: bool)
    ensures
        r == spec_matches_at(s@, pat@, i as int),
{
    let slen = s.unicode_len();
    let plen = pat.unicode_len();
    if i > slen || plen > slen - i {
        return false;
    }
    let mut j: usize = 0;
    while j < plen
        invariant
            slen == s@.len(),
            plen == pat@.len(),
            i + plen <= slen,
            j <= plen,
            forall|k: int| 0 <= k < j ==> s@[i + k] == pat@[k],
        decreases plen - j,
    {
        if s.get_char(i + j) != pat.get_char(j) {
            proof {
                assert(s@[i + j] != pat@[j as int]);
                assert(s@.subrange(i as int, i + plen)[j as int] == s@[i + j]);
            }
            return false;
        }
        j = j + 1;
    }
    proof {
        assert(s@.subrange(i as int, i + plen) =~= pat@);
    }
    true
}

/// The first occurrence of `pat` in `s` at or after `from`, if any.
pub fn str_find_from(s: &str, pat: &str, from: usize) -> (r: Option<usize>)
    ensures
        match r {
            Some(i) => from <= i && spec_matches_at(s@, pat@, i as int) && forall|k: int|
                from <= k < i ==> !spec_matches_at(s@, pat@, k),
            None => forall|k: int| from <= k ==> !spec_matches_at(s@, pat@, k),
        },
{
    let slen = s.unicode_len();
    if from > slen {
        proof {
            assert forall|k: int| from <= k implies !spec_matches_at(s@, pat@, k) by {
                assert(k + pat@.len() > s@.len());
            }
        }
        return None;
    }
    let mut i = from;
    loop
        invariant
            slen == s@.len(),
            from <= i <= slen,
            forall|k: int| from <= k < i ==> !spec_matches_at(s@, pat@, k),
        decreases slen - i,
    {
        if str_matches_at(s, pat, i) {
            return Some(i);
        }
        if i == slen {
            proof {
                assert forall|k: int| from <= k implies !spec_matches_at(s@, pat@, k) by {
                    if k > slen {
                        assert(k + pat@.len() > s@.len());
                    }
                }
            }
            return None;
        }
        i = i + 1;
    }
}

/// The whitespace characters the metadata scanner recognizes (the Unicode
/// white-space set).
pub open spec fn spec_is_ws(c: char) -> bool {
    ||| c == ' '
    ||| c == '\t'
    ||| c == '\n'
    ||| c == '\r'
    ||| c == '\u{b}'
    ||| c == '\u{c}'
    ||| c == '\u{85}'
    ||| c == '\u{a0}'
    ||| c == '\u{1680}'
    ||| ('\u{2000}' as u32 <= c as u32 && c as u32 <= '\u{200a}' as u32)
    ||| c == '\u{2028}'
    ||| c == '\u{2029}'
    ||| c == '\u{202f}'
    ||| c == '\u{205f}'
    ||| c == '\u{3000}'
}

/// Whether `c` is whitespace.
pub fn is_ws(c: char) -> (r: bool)
    ensures
        r == spec_is_ws(c),
{
    c == ' ' || c == '\t' || c == '\n' || c == '\r' || c == '\u{b}' || c == '\u{c}' || c == '\u{85}'
        || c == '\u{a0}' || c == '\u{1680}' || (('\u{2000}' as u32) <= (c as u32) && (c as u32)
        <= ('\u{200a}' as u32)) || c == '\u{2028}' || c == '\u{2029}' || c == '\u{202f}' || c
        == '\u{205f}' || c == '\u{3000}'
}

/// The first index at or after `i` holding a non-whitespace character (the
/// length of `s` when there is none).
pub open spec fn spec_first_non_ws(s: Seq<char>, i: int) -> int
    decreases s.len() - i,
{
    if i < 0 {
        0
    } else if i >= s.len() || !spec_is_ws(s[i]) {
        i
    } else {
        spec_first_non_ws(s, i + 1)
    }
}

/// Finds the first non-whitespace position at or after `i`.
pub fn skip_ws(s: &str, i: usize) -> (r: usize)
    requires
        i <= s@.len(),
    ensures
        r == spec_first_non_ws(s@, i as int),
        i <= r <= s@.len(),
{
    let slen = s.unicode_len();
    let mut j = i;
    while j < slen
        invariant
            slen == s@.len(),
            i <= j <= slen,
            spec_first_non_ws(s@, i as int) == spec_first_non_ws(s@, j as int),
        decreases slen - j,
    {
        if !is_ws(s.get_char(j)) {
            return j;
        }
        j = j + 1;
    }
    j
}

/// Where the trailing whitespace of `s` begins (0 for an all-whitespace
/// string).
pub open spec fn spec_trim_end(s: Seq<char>) -> int
    decreases s.len(),
{
    if s.len() == 0 {
        0
    } else if spec_is_ws(s.last()) {
        spec_trim_end(s.drop_last())
    } else {
        s.len() as int
    }
}

/// `s` with leading and trailing whitespace removed.
pub open spec fn spec_trim(s: Seq<char>) -> Seq<char> {
    let a = spec_first_non_ws(s, 0);
    let b = spec_trim_end(s);
    if a < b {
        s.subrange(a, b)
    } else {
        Seq::empty()
    }
}

/// Removes leading and trailing whitespace.
pub fn trim_of(s: &str) -> (r: String)
    ensures
        r@ == spec_trim(s@),
{
    let n = s.unicode_len();
    let a = skip_ws(s, 0);
    let mut b = n;
    proof {
        assert(s@.take(n as int) =~= s@);
    }
    while b > 0 && is_ws(s.get_char(b - 1))
        invariant
            n == s@.len(),
            b <= n,
            spec_trim_end(s@) == spec_trim_end(s@.take(b as int)),
        decreases b,
    {
        proof {
            assert(s@.take(b as int).last() == s@[b - 1]);
            assert(s@.take(b as int).drop_last() =~= s@.take(b - 1));
        }
        b = b - 1;
    }
    proof {
        if b == 0 {
            assert(s@.take(0) =~= Seq::<char>::empty());
            assert(spec_trim_end(s@) == 0);
        } else {
            assert(s@.take(b as int).last() == s@[b - 1]);
            assert(spec_trim_end(s@.take(b as int)) == b as int);
        }
    }
    if a < b {
        let t = s.substring_char(a, b);
        proof {
            assert(t@ =~= s@.subrange(a as int, b as int));
        }
        str_to_string(t)
    } else {
        String::new()
    }
}

/// The result of lowercasing a string: a function of its characters alone.
pub uninterp spec fn lower_of(s: Seq<char>) -> Seq<char>;

/// Relies on std's str::to_lowercase: the Unicode lowercase mapping of the
/// string, a function of its characters alone.
#[verifier::external_body]
pub fn lowercase(s: &str) -> (r: String)
    ensures
        r@ == lower_of(s@),
{
    s.to_lowercase()
}

/// Relies on std's String::push: appends the given character to the end of
/// the string.
#[verifier::external_body]
pub fn push_char(s: &mut String, c: char)
    ensures
        final(s)@ == old(s)@.push(c),
{
    s.push(c);
}

/// Builds an owned copy of a string slice.
pub fn str_to_string(s: &str) -> (r: String)
    ensures
        r@ == s@,
{
    let mut out = String::new();
    out.append(s);
    out
}


/// Every non-overlapping occurrence of `pat`, found left to right, replaced
/// by `to`; the text unchanged for an empty pattern.
pub open spec fn spec_replace(s: Seq<char>, pat: Seq<char>, to: Seq<char>) -> Seq<char>
    decreases s.len(),
{
    if pat.len() == 0 {
        s
    } else if spec_matches_at(s, pat, 0) {
        to + spec_replace(s.skip(pat.len() as int), pat, to)
    } else if s.len() == 0 {
        s
    } else {
        seq![s[0]] + spec_replace(s.drop_first(), pat, to)
    }
}

/// Relies on std's str::replace: replaces every non-overlapping occurrence of
/// the pattern, found left to right, with the replacement.
#[verifier::external_body]
pub fn replace_all(s: &str, pat: &str, to: &str) -> (r: String)
    requires
        pat@.len() > 0,
    ensures
        r@ == spec_replace(s@, pat@, to@),
{
    s.replace(pat, to)
}


/// The ASCII-lowercase of one character: `A` through `Z` mapped down,
/// everything else kept.
pub open spec fn spec_ascii_lower_char(c: char) -> char {
    if 65 <= c as int && c as int <= 90 {
        ((c as u8) + 32) as char
    } else {
        c
    }
}

/// Lowers one character, ASCII-only.
pub fn ascii_lower_char(c: char) -> (r: char)
    ensures
        r == spec_ascii_lower_char(c),
{
    let cu = c as u32;
    if 65 <= cu && cu <= 90 {
        (((cu + 32) as u8) as char)
    } else {
        c
    }
}

/// The string with its ASCII uppercase letters lowered; other characters are
/// untouched.
pub open spec fn spec_ascii_lower(s: Seq<char>) -> Seq<char> {
    s.map_values(|c: char| spec_ascii_lower_char(c))
}

/// Lowers a string, ASCII-only.
pub fn ascii_lower(s: &str) -> (r: String)
    ensures
        r@ == spec_ascii_lower(s@),
{
    let n = s.unicode_len();
    let mut out = String::new();
    let mut i: usize = 0;
    proof {
        assert(out@ =~= spec_ascii_lower(s@).take(0));
    }
    while i < n
        invariant
            n == s@.len(),
            i <= n,
            out@ == spec_ascii_lower(s@).take(i as int),
        decreases n - i,
    {
        let c = ascii_lower_char(s.get_char(i));
        let ghost before = out@;
        push_char(&mut out, c);
        proof {
            assert(out@ =~= before.push(spec_ascii_lower(s@)[i as int]));
            assert(before.push(spec_ascii_lower(s@)[i as int]) =~= spec_ascii_lower(s@).take(
                i + 1,
            ));
        }
        i = i + 1;
    }
    proof {
        assert(spec_ascii_lower(s@).take(n as int) =~= spec_ascii_lower(s@));
    }
    out
}

} // verus!
