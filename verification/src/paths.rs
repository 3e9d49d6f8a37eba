//! Path algebra on slash-separated relative paths.
//!
//! A path is modelled as the sequence of its pieces between `/` separators.
//! Normalization processes pieces left to right over a stack: a normal piece
//! is pushed, `..` pops (and silently does nothing on an empty stack), and
//! empty or `.` pieces are dropped.

use vstd::prelude::*;

use crate::text::push_char;
use crate::text::str_eq;

verus! {

/// The `..` piece.
pub open spec fn dotdot() -> Seq<char> {
    seq!['.', '.']
}

/// The `.` piece.
pub open spec fn dot() -> Seq<char> {
    seq!['.']
}

/// Splitting with an accumulator: `cur` holds the piece read so far.
pub open spec fn spec_split_acc(s: Seq<char>, cur: Seq<char>) -> Seq<Seq<char>>
    decreases s.len(),
{
    if s.len() == 0 {
        seq![cur]
    } else if s[0] == '/' {
        seq![cur] + spec_split_acc(s.drop_first(), seq![])
    } else {
        spec_split_acc(s.drop_first(), cur.push(s[0]))
    }
}

/// The pieces of `s` between `/` separators; empty pieces are kept.
pub open spec fn spec_split(s: Seq<char>) -> Seq<Seq<char>> {
    spec_split_acc(s, seq![])
}

/// One normalization step on the stack.
pub open spec fn norm_push(stack: Seq<Seq<char>>, piece: Seq<char>) -> Seq<Seq<char>> {
    if piece == dotdot() {
        if stack.len() == 0 {
            stack
        } else {
            stack.drop_last()
        }
    } else if piece.len() == 0 || piece == dot() {
        stack
    } else {
        stack.push(piece)
    }
}

/// Normalization of `pieces`, started on `stack`.
pub open spec fn spec_norm_from(stack: Seq<Seq<char>>, pieces: Seq<Seq<char>>) -> Seq<Seq<char>>
    decreases pieces.len(),
{
    if pieces.len() == 0 {
        stack
    } else {
        spec_norm_from(norm_push(stack, pieces[0]), pieces.drop_first())
    }
}

/// The canonical segments a raw path string denotes.
pub open spec fn spec_segments_of(s: Seq<char>) -> Seq<Seq<char>> {
    spec_norm_from(seq![], spec_split(s))
}

/// Segments joined with `/` separators.
pub open spec fn spec_join(v: Seq<Seq<char>>) -> Seq<char>
    decreases v.len(),
{
    if v.len() == 0 {
        seq![]
    } else if v.len() == 1 {
        v[0]
    } else {
        v[0] + seq!['/'] + spec_join(v.drop_first())
    }
}

/// A well-formed segment: non-empty, not `.` or `..`, free of `/`.
pub open spec fn wf_segment(p: Seq<char>) -> bool {
    &&& p.len() > 0
    &&& p != dot()
    &&& p != dotdot()
    &&& forall|i: int| 0 <= i < p.len() ==> p[i] != '/'
}

/// A well-formed segment sequence.
pub open spec fn wf_segments(v: Seq<Seq<char>>) -> bool {
    forall|i: int| 0 <= i < v.len() ==> wf_segment(#[trigger] v[i])
}

/// Normalizing is a left fold, so it splits over concatenation.
pub proof fn lemma_norm_concat(stack: Seq<Seq<char>>, a: Seq<Seq<char>>, b: Seq<Seq<char>>)
    ensures
        spec_norm_from(stack, a + b) == spec_norm_from(spec_norm_from(stack, a), b),
    decreases a.len(),
{
    if a.len() == 0 {
        assert(a + b =~= b);
    } else {
        assert((a + b).drop_first() =~= a.drop_first() + b);
        assert((a + b)[0] == a[0]);
        lemma_norm_concat(norm_push(stack, a[0]), a.drop_first(), b);
    }
}

/// Well-formed segments are pushed one by one, so normalizing them appends.
pub proof fn lemma_norm_wf_appends(stack: Seq<Seq<char>>, v: Seq<Seq<char>>)
    requires
        wf_segments(v),
    ensures
        spec_norm_from(stack, v) == stack + v,
    decreases v.len(),
{
    if v.len() == 0 {
        assert(stack + v =~= stack);
    } else {
        assert(wf_segment(v[0]));
        assert(norm_push(stack, v[0]) == stack.push(v[0]));
        assert(wf_segments(v.drop_first()));
        lemma_norm_wf_appends(stack.push(v[0]), v.drop_first());
        assert(stack.push(v[0]) + v.drop_first() =~= stack + v);
    }
}

/// `pieces` never pops more than `depth` segments while it is processed.
pub open spec fn safe_from(pieces: Seq<Seq<char>>, depth: int) -> bool
    decreases pieces.len(),
{
    if pieces.len() == 0 {
        true
    } else if pieces[0] == dotdot() {
        depth > 0 && safe_from(pieces.drop_first(), depth - 1)
    } else if pieces[0].len() == 0 || pieces[0] == dot() {
        safe_from(pieces.drop_first(), depth)
    } else {
        safe_from(pieces.drop_first(), depth + 1)
    }
}

/// As long as `pieces` never pops below `top`, a deeper base is untouched:
/// normalization over `base + top` is `base` followed by normalization over
/// `top` alone.
pub proof fn lemma_norm_shift(base: Seq<Seq<char>>, top: Seq<Seq<char>>, pieces: Seq<Seq<char>>)
    requires
        safe_from(pieces, top.len() as int),
    ensures
        spec_norm_from(base + top, pieces) == base + spec_norm_from(top, pieces),
    decreases pieces.len(),
{
    if pieces.len() == 0 {
    } else {
        let p = pieces[0];
        if p == dotdot() {
            assert(top.len() > 0);
            assert(norm_push(base + top, p) =~= base + top.drop_last());
            lemma_norm_shift(base, top.drop_last(), pieces.drop_first());
        } else if p.len() == 0 || p == dot() {
            lemma_norm_shift(base, top, pieces.drop_first());
        } else {
            assert(norm_push(base + top, p) =~= base + top.push(p));
            lemma_norm_shift(base, top.push(p), pieces.drop_first());
        }
    }
}

/// Joining after pushing one more segment appends a separator and the segment
/// (no separator when the list was empty).
pub proof fn lemma_join_push(v: Seq<Seq<char>>, x: Seq<char>)
    ensures
        spec_join(v.push(x)) == if v.len() == 0 {
            x
        } else {
            spec_join(v) + seq!['/'] + x
        },
    decreases v.len(),
{
    if v.len() == 0 {
        assert(v.push(x)[0] =~= x);
        assert(v.push(x).len() == 1);
    } else {
        assert(v.push(x).drop_first() =~= v.drop_first().push(x));
        lemma_join_push(v.drop_first(), x);
        if v.len() == 1 {
            assert(v.drop_first().len() == 0);
            assert(spec_join(v) == v[0]);
            assert(spec_join(v.push(x)) == v[0] + seq!['/'] + x);
        } else {
            assert(spec_join(v) == v[0] + seq!['/'] + spec_join(v.drop_first()));
            assert(spec_join(v.push(x)) == v[0] + seq!['/'] + (spec_join(v.drop_first()) + seq![
                '/',
            ] + x));
            assert(v[0] + seq!['/'] + (spec_join(v.drop_first()) + seq!['/'] + x) =~= (v[0] + seq![
                '/',
            ] + spec_join(v.drop_first())) + seq!['/'] + x);
        }
    }
}

/// A piece free of `/` characters.
pub open spec fn slash_free(p: Seq<char>) -> bool {
    forall|i: int| 0 <= i < p.len() ==> p[i] != '/'
}

/// Every piece produced by splitting is free of `/`.
proof fn lemma_split_acc_slash_free(s: Seq<char>, cur: Seq<char>)
    requires
        slash_free(cur),
    ensures
        forall|i: int|
            0 <= i < spec_split_acc(s, cur).len() ==> slash_free(
                #[trigger] spec_split_acc(s, cur)[i],
            ),
    decreases s.len(),
{
    if s.len() == 0 {
        assert(spec_split_acc(s, cur) == seq![cur]);
        assert(spec_split_acc(s, cur)[0] == cur);
    } else if s[0] == '/' {
        lemma_split_acc_slash_free(s.drop_first(), seq![]);
        let rec = spec_split_acc(s.drop_first(), seq![]);
        let whole = spec_split_acc(s, cur);
        assert(whole == seq![cur] + rec);
        assert forall|i: int| 0 <= i < whole.len() implies slash_free(#[trigger] whole[i]) by {
            if i == 0 {
                assert(whole[0] == cur);
            } else {
                assert(whole[i] == rec[i - 1]);
            }
        }
    } else {
        assert(slash_free(cur.push(s[0])));
        lemma_split_acc_slash_free(s.drop_first(), cur.push(s[0]));
        assert(spec_split_acc(s, cur) == spec_split_acc(s.drop_first(), cur.push(s[0])));
    }
}

/// Every piece produced by splitting a path string is free of `/`.
pub proof fn lemma_split_slash_free(s: Seq<char>)
    ensures
        forall|i: int|
            0 <= i < spec_split(s).len() ==> slash_free(#[trigger] spec_split(s)[i]),
{
    lemma_split_acc_slash_free(s, seq![]);
}

/// Normalizing slash-free pieces onto a well-formed stack keeps the stack
/// well-formed.
pub proof fn lemma_norm_wf(stack: Seq<Seq<char>>, pieces: Seq<Seq<char>>)
    requires
        wf_segments(stack),
        forall|i: int| 0 <= i < pieces.len() ==> slash_free(#[trigger] pieces[i]),
    ensures
        wf_segments(spec_norm_from(stack, pieces)),
    decreases pieces.len(),
{
    if pieces.len() > 0 {
        let p = pieces[0];
        let next = norm_push(stack, p);
        assert(wf_segments(next)) by {
            if p == dotdot() {
                if stack.len() > 0 {
                    assert(forall|i: int|
                        0 <= i < stack.drop_last().len() ==> wf_segment(
                            #[trigger] stack.drop_last()[i],
                        ));
                }
            } else if p.len() == 0 || p == dot() {
            } else {
                assert(slash_free(p));
                assert(wf_segment(p));
                assert(forall|i: int|
                    0 <= i < stack.push(p).len() ==> wf_segment(#[trigger] stack.push(p)[i]));
            }
        }
        lemma_norm_wf(next, pieces.drop_first());
    }
}

/// Consuming a slash-free prefix of the input only grows the current piece.
proof fn lemma_split_acc_absorb(a: Seq<char>, rest: Seq<char>, cur: Seq<char>)
    requires
        slash_free(a),
    ensures
        spec_split_acc(a + rest, cur) == spec_split_acc(rest, cur + a),
    decreases a.len(),
{
    if a.len() == 0 {
        assert(a + rest =~= rest);
        assert(cur + a =~= cur);
    } else {
        assert((a + rest)[0] == a[0]);
        assert(a[0] != '/');
        assert((a + rest).drop_first() =~= a.drop_first() + rest);
        lemma_split_acc_absorb(a.drop_first(), rest, cur.push(a[0]));
        assert(cur.push(a[0]) + a.drop_first() =~= cur + a);
    }
}

/// A sequence of segments that can be joined and split back: each piece is
/// non-empty and free of `/`.
pub open spec fn joinable(v: Seq<Seq<char>>) -> bool {
    forall|i: int| 0 <= i < v.len() ==> (#[trigger] v[i]).len() > 0 && slash_free(v[i])
}

/// Splitting a joined segment list recovers the list (an empty list joins to
/// the empty string, which splits into one empty piece).
pub proof fn lemma_split_join_inverse(v: Seq<Seq<char>>)
    requires
        joinable(v),
    ensures
        spec_split(spec_join(v)) == if v.len() == 0 {
            seq![Seq::<char>::empty()]
        } else {
            v
        },
    decreases v.len(),
{
    if v.len() == 0 {
        assert(spec_join(v) =~= Seq::<char>::empty());
        assert(spec_split(Seq::<char>::empty()) =~= seq![Seq::<char>::empty()]);
    } else if v.len() == 1 {
        lemma_split_acc_absorb(v[0], seq![], seq![]);
        assert(v[0] + Seq::<char>::empty() =~= v[0]);
        assert(Seq::<char>::empty() + v[0] =~= v[0]);
        assert(spec_split_acc(Seq::<char>::empty(), v[0]) == seq![v[0]]);
        assert(spec_split(spec_join(v)) =~= v);
    } else {
        let rest = v.drop_first();
        assert(spec_join(v) == v[0] + seq!['/'] + spec_join(rest));
        assert(v[0] + seq!['/'] + spec_join(rest) =~= v[0] + (seq!['/'] + spec_join(rest)));
        lemma_split_acc_absorb(v[0], seq!['/'] + spec_join(rest), seq![]);
        assert(Seq::<char>::empty() + v[0] =~= v[0]);
        let tail = seq!['/'] + spec_join(rest);
        assert(tail[0] == '/');
        assert(tail.drop_first() =~= spec_join(rest));
        assert(spec_split_acc(tail, v[0]) == seq![v[0]] + spec_split_acc(spec_join(rest), seq![]));
        assert(joinable(rest));
        lemma_split_join_inverse(rest);
        assert(seq![v[0]] + rest =~= v);
    }
}

/// Popping `k` times with `..` pieces drops the last `k` stack entries.
pub proof fn lemma_norm_dotdots(stack: Seq<Seq<char>>, k: int)
    requires
        0 <= k <= stack.len(),
    ensures
        spec_norm_from(stack, Seq::new(k as nat, |i: int| dotdot())) == stack.take(
            stack.len() - k,
        ),
    decreases k,
{
    let dots = Seq::new(k as nat, |i: int| dotdot());
    if k == 0 {
        assert(stack.take(stack.len() as int) =~= stack);
    } else {
        assert(dots[0] == dotdot());
        assert(dots.drop_first() =~= Seq::new((k - 1) as nat, |i: int| dotdot()));
        assert(norm_push(stack, dotdot()) == stack.drop_last());
        assert(stack.drop_last() =~= stack.take(stack.len() - 1));
        lemma_norm_dotdots(stack.take(stack.len() - 1), k - 1);
        assert(stack.take(stack.len() - 1).take(stack.len() - k) =~= stack.take(stack.len() - k));
    }
}

/// A leading separator splits off one empty piece.
pub proof fn lemma_split_slash_prefix(s: Seq<char>)
    ensures
        spec_split(seq!['/'] + s) == seq![Seq::<char>::empty()] + spec_split(s),
{
    let w = seq!['/'] + s;
    assert(w[0] == '/');
    assert(w.drop_first() =~= s);
    assert(spec_split_acc(w, seq![]) == seq![Seq::<char>::empty()] + spec_split_acc(s, seq![]));
}

/// Splitting always yields at least one piece.
pub proof fn lemma_split_len(s: Seq<char>)
    ensures
        spec_split(s).len() >= 1,
{
    lemma_split_acc_len(s, seq![]);
}

pub proof fn lemma_split_acc_len(s: Seq<char>, cur: Seq<char>)
    ensures
        spec_split_acc(s, cur).len() >= 1,
    decreases s.len(),
{
    if s.len() == 0 {
    } else if s[0] == '/' {
        lemma_split_acc_len(s.drop_first(), seq![]);
    } else {
        lemma_split_acc_len(s.drop_first(), cur.push(s[0]));
    }
}

/// Index of the last `.` in a segment, `-1` when there is none.
pub open spec fn spec_rfind_dot(seg: Seq<char>) -> int
    decreases seg.len(),
{
    if seg.len() == 0 {
        -1
    } else if seg.last() == '.' {
        seg.len() - 1
    } else {
        spec_rfind_dot(seg.drop_last())
    }
}

/// A segment has an extension when a `.` occurs past its first character.
pub open spec fn spec_has_ext(seg: Seq<char>) -> bool {
    spec_rfind_dot(seg) >= 1
}

/// The extension: everything after the last `.`.
pub open spec fn spec_ext(seg: Seq<char>) -> Seq<char> {
    seg.skip(spec_rfind_dot(seg) + 1)
}

/// The stem: everything before the last `.`, or the whole segment when it has
/// no extension.
pub open spec fn spec_stem(seg: Seq<char>) -> Seq<char> {
    if spec_has_ext(seg) {
        seg.take(spec_rfind_dot(seg))
    } else {
        seg
    }
}

/// The last-dot index lies within the segment.
pub proof fn lemma_rfind_dot_bounds(seg: Seq<char>)
    ensures
        -1 <= spec_rfind_dot(seg) < seg.len(),
    decreases seg.len(),
{
    if seg.len() > 0 && seg.last() != '.' {
        lemma_rfind_dot_bounds(seg.drop_last());
    }
}

/// Finds the last `.` of a segment.
pub fn rfind_dot(s: &str) -> (r: Option<usize>)
    ensures
        match r {
            Some(p) => p == spec_rfind_dot(s@) && p < s@.len(),
            None => spec_rfind_dot(s@) == -1,
        },
{
    let len = s.unicode_len();
    let mut k = len;
    proof {
        assert(s@.take(len as int) =~= s@);
    }
    loop
        invariant
            len == s@.len(),
            k <= len,
            spec_rfind_dot(s@) == spec_rfind_dot(s@.take(k as int)),
        decreases k,
    {
        if k == 0 {
            proof {
                assert(s@.take(0) =~= Seq::<char>::empty());
            }
            return None;
        }
        let c = s.get_char(k - 1);
        proof {
            assert(s@.take(k as int).last() == s@[k - 1]);
            assert(s@.take(k as int).drop_last() =~= s@.take(k - 1));
        }
        if c == '.' {
            return Some(k - 1);
        }
        k = k - 1;
    }
}

/// Whether the segment's extension equals `ext`.
pub fn seg_ext_is(seg: &str, ext: &str) -> (r: bool)
    ensures
        r == (spec_has_ext(seg@) && spec_ext(seg@) == ext@),
{
    match rfind_dot(seg) {
        Some(p) if p >= 1 => {
            let n = seg.unicode_len();
            let e = seg.substring_char(p + 1, n);
            proof {
                assert(e@ =~= seg@.skip(p + 1));
            }
            str_eq(e, ext)
        },
        _ => false,
    }
}

/// The segment's stem as an owned string.
pub fn seg_stem(seg: &str) -> (r: String)
    ensures
        r@ == spec_stem(seg@),
{
    match rfind_dot(seg) {
        Some(p) if p >= 1 => {
            let s = seg.substring_char(0, p);
            proof {
                assert(s@ =~= seg@.take(p as int));
            }
            crate::text::str_to_string(s)
        },
        _ => crate::text::str_to_string(seg),
    }
}

/// Whether the segment has an extension at all.
pub fn seg_has_ext(seg: &str) -> (r: bool)
    ensures
        r == spec_has_ext(seg@),
{
    match rfind_dot(seg) {
        Some(p) if p >= 1 => true,
        _ => false,
    }
}

/// Splits a raw path string into its pieces between `/` separators.
pub fn split_path(s: &str) -> (r: Vec<String>)
    ensures
        r.deep_view() == spec_split(s@),
        r.len() >= 1,
{
    let len = s.unicode_len();
    let mut done: Vec<String> = Vec::new();
    let mut cur = String::new();
    let mut i: usize = 0;
    proof {
        assert(done.deep_view() =~= Seq::<Seq<char>>::empty());
        assert(s@.skip(0) =~= s@);
        assert(cur@ =~= Seq::<char>::empty());
        assert(done.deep_view() + spec_split_acc(s@, cur@) =~= spec_split_acc(s@, seq![]));
    }
    while i < len
        invariant
            len == s@.len(),
            i <= len,
            spec_split(s@) == done.deep_view() + spec_split_acc(s@.skip(i as int), cur@),
        decreases len - i,
    {
        let c = s.get_char(i);
        proof {
            assert(s@.skip(i as int)[0] == s@[i as int]);
            assert(s@.skip(i as int).drop_first() =~= s@.skip(i + 1));
        }
        if c == '/' {
            proof {
                assert(spec_split_acc(s@.skip(i as int), cur@) == seq![cur@] + spec_split_acc(
                    s@.skip(i + 1),
                    seq![],
                ));
            }
            let ghost old_done = done.deep_view();
            done.push(cur);
            proof {
                assert(done.deep_view() =~= old_done.push(done[done.len() - 1]@));
                assert(old_done + (seq![done[done.len() - 1]@] + spec_split_acc(
                    s@.skip(i + 1),
                    seq![],
                )) =~= done.deep_view() + spec_split_acc(s@.skip(i + 1), seq![]));
            }
            cur = String::new();
        } else {
            let ghost old_cur = cur@;
            push_char(&mut cur, c);
            proof {
                assert(cur@ =~= old_cur.push(s@[i as int]));
            }
        }
        i = i + 1;
    }
    proof {
        assert(s@.skip(len as int) =~= Seq::<char>::empty());
        assert(spec_split_acc(Seq::<char>::empty(), cur@) == seq![cur@]);
    }
    let ghost old_done = done.deep_view();
    done.push(cur);
    proof {
        assert(done.deep_view() =~= old_done.push(done[done.len() - 1]@));
        assert(old_done + seq![done[done.len() - 1]@] =~= done.deep_view());
    }
    done
}

/// Normalizes raw pieces into canonical segments.
pub fn normalize_pieces(pieces: Vec<String>) -> (r: Vec<String>)
    ensures
        r.deep_view() == spec_norm_from(seq![], pieces.deep_view()),
        wf_segments(pieces.deep_view()) ==> r.deep_view() == pieces.deep_view(),
{
    let mut stack: Vec<String> = Vec::new();
    let mut i: usize = 0;
    let n = pieces.len();
    proof {
        assert(stack.deep_view() =~= Seq::<Seq<char>>::empty());
        assert(pieces.deep_view().skip(0) =~= pieces.deep_view());
    }
    while i < n
        invariant
            n == pieces.len(),
            i <= n,
            spec_norm_from(seq![], pieces.deep_view()) == spec_norm_from(
                stack.deep_view(),
                pieces.deep_view().skip(i as int),
            ),
        decreases n - i,
    {
        let piece = &pieces[i];
        proof {
            reveal_strlit("..");
            reveal_strlit(".");
            assert(".."@ =~= dotdot());
            assert("."@ =~= dot());
            assert(pieces.deep_view().skip(i as int)[0] == pieces.deep_view()[i as int]);
            assert(pieces.deep_view().skip(i as int).drop_first() =~= pieces.deep_view().skip(
                i + 1,
            ));
        }
        if str_eq(piece.as_str(), "..") {
            proof {
                assert(piece@ =~= dotdot());
            }
            if stack.len() > 0 {
                let ghost old_stack = stack.deep_view();
                stack.pop();
                proof {
                    assert(stack.deep_view() =~= old_stack.drop_last());
                }
            }
        } else if piece.as_str().is_empty() || str_eq(piece.as_str(), ".") {
            proof {
                assert(piece@.len() == 0 || piece@ =~= dot());
                assert(piece@ != dotdot());
            }
        } else {
            proof {
                assert(piece@ != dotdot());
                assert(piece@ != dot());
                assert(piece@.len() != 0);
            }
            let ghost old_stack = stack.deep_view();
            stack.push(piece.clone());
            proof {
                assert(stack.deep_view() =~= old_stack.push(pieces.deep_view()[i as int]));
            }
        }
        i = i + 1;
    }
    proof {
        assert(pieces.deep_view().skip(n as int) =~= Seq::<Seq<char>>::empty());
        if wf_segments(pieces.deep_view()) {
            lemma_norm_wf_appends(seq![], pieces.deep_view());
            assert(seq![] + pieces.deep_view() =~= pieces.deep_view());
        }
    }
    stack
}

/// Joins segments with `/` separators.
pub fn join_path(segs: &Vec<String>) -> (r: String)
    ensures
        r@ == spec_join(segs.deep_view()),
{
    let mut out = String::new();
    let mut i: usize = 0;
    let n = segs.len();
    while i < n
        invariant
            n == segs.len(),
            out@ == spec_join(segs.deep_view().take(i as int)),
            i <= n,
        decreases n - i,
    {
        if i > 0 {
            out.append("/");
        }
        out.append(segs[i].as_str());
        proof {
            reveal_strlit("/");
            assert("/"@ =~= seq!['/']);
            let v = segs.deep_view();
            assert(v.take(i + 1) =~= v.take(i as int).push(v[i as int]));
            lemma_join_push(v.take(i as int), v[i as int]);
            assert(v.take(i as int).len() == i);
        }
        i = i + 1;
    }
    proof {
        assert(segs.deep_view().take(n as int) =~= segs.deep_view());
    }
    out
}

} // verus!
