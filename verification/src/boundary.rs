//! Boundaries: regions of a page that a streaming render pass can replace on
//! their own.
//!
//! A boundary renders its child between `<!--topcoat-boundary ID-->` and
//! `<!--/topcoat-boundary ID-->`, where `ID` is the hash of the boundary's
//! identity as 32 lower-case hexadecimal digits.
use vstd::prelude::*;
use crate::reconcile::{
    boundary_map, boundary_ref, comment_close, content_hash, normalized_from, end_marker, is_first_child, is_parent, is_winner,
    last_open_with, marker_id, markers_from, match_all, match_step, next_marker, normalized,
    spans_of, start_marker, winner_of, BoundaryView, MatchState, Marker, Open, Span,
    BoundaryItem, entries_map, entries_sorted, lemma_entries_lookup, parses_to, reconcile_chunk,
    swap_template_spec, SnapshotView, changed_swaps, is_changed,
};
use crate::text::{find_from, lemma_seq_lt_irreflexive, occurs_at, seq_lt};
use crate::text::{chars_of, push_all, string_of};

verus! {

/// The lower-case hexadecimal digit for `d` (below 16).
pub open spec fn hex_char(d: nat) -> char {
    if d < 10 {
        ((48 + d) as u32) as char
    } else {
        ((87 + d) as u32) as char
    }
}

/// The `n` lowest hexadecimal digits of `x`, most significant first.
pub open spec fn hex_digits(x: nat, n: nat) -> Seq<char>
    decreases n,
{
    if n == 0 {
        seq![]
    } else {
        hex_digits(x / 16, (n - 1) as nat).push(hex_char(x % 16))
    }
}

/// `x` written as `format!("{:032x}", x)` writes it.
pub open spec fn hex32(x: u128) -> Seq<char> {
    hex_digits(x as nat, 32)
}

/// The markup of a boundary with identity hash `identity` around `child`.
pub open spec fn boundary_html(identity: u128, child: Seq<char>) -> Seq<char> {
    start_marker() + hex32(identity) + comment_close() + child + end_marker() + hex32(identity)
        + comment_close()
}

fn hex_char_exec(d: u128) -> (c: char)
    requires
        d < 16,
    ensures
        c == hex_char(d as nat),
{
    let digits = ['0', '1', '2', '3', '4', '5', '6', '7', '8', '9', 'a', 'b', 'c', 'd', 'e', 'f'];
    assert(digits@ =~= seq!['0', '1', '2', '3', '4', '5', '6', '7', '8', '9', 'a', 'b', 'c', 'd', 'e', 'f']);
    let c = digits[d as usize];
    assert(c == hex_char(d as nat)) by {
        assert(('0' as u32) == 48);
        assert(('a' as u32) == 97);
    }
    c
}

/// The identity hash as 32 lower-case hexadecimal digits.
fn hex32_exec(x: u128) -> (r: Vec<char>)
    ensures
        r@ == hex32(x),
{
    let mut out: Vec<char> = Vec::new();
    let mut v = x;
    let mut left: usize = 32;
    while left > 0
        invariant
            left <= 32,
            hex32(x) == hex_digits(v as nat, left as nat) + out@,
        decreases left,
    {
        let c = hex_char_exec(v % 16);
        let ghost before = out@;
        out.insert(0, c);
        assert(hex_digits(v as nat, left as nat) == hex_digits((v / 16) as nat, (left - 1) as nat).push(c));
        assert(hex_digits((v / 16) as nat, (left - 1) as nat).push(c) + before =~= hex_digits(
            (v / 16) as nat,
            (left - 1) as nat,
        ) + out@);
        v = v / 16;
        left = left - 1;
    }
    assert(hex_digits(v as nat, 0) =~= Seq::<char>::empty());
    assert(out@ =~= hex32(x));
    out
}

/// A region that can be replaced on its own by a streaming render pass: the
/// hash of its identity and its rendered child.
#[derive(Debug, Clone)]
pub struct Boundary {
    identity: u128,
    child: String,
}

/// What a boundary is.
pub struct BoundaryParts {
    pub identity: u128,
    pub child: Seq<char>,
}

impl View for Boundary {
    type V = BoundaryParts;

    closed spec fn view(&self) -> BoundaryParts {
        BoundaryParts { identity: self.identity, child: self.child@ }
    }
}

impl Boundary {
    /// Wraps the rendered `child` in the marker comments of the boundary
    /// whose identity hashes to `identity`.
    pub fn new(identity: u128, child: String) -> (b: Self)
        ensures
            b@ == (BoundaryParts { identity, child: child@ }),
    {
        Boundary { identity, child }
    }

    /// The id its markers carry.
    pub fn marker_id(&self) -> (r: String)
        ensures
            r@ == hex32(self@.identity),
    {
        string_of(&hex32_exec(self.identity))
    }

    /// The boundary's markup: the child between its opening and closing
    /// markers.
    pub fn render(&self) -> (r: String)
        ensures
            r@ == boundary_html(self@.identity, self@.child),
    {
        let id = hex32_exec(self.identity);
        let mut out: Vec<char> = Vec::new();
        push_all(&mut out, &chars_of("<!--topcoat-boundary "));
        push_all(&mut out, &id);
        push_all(&mut out, &chars_of("-->"));
        push_all(&mut out, &chars_of(self.child.as_str()));
        push_all(&mut out, &chars_of("<!--/topcoat-boundary "));
        push_all(&mut out, &id);
        push_all(&mut out, &chars_of("-->"));
        proof {
            reveal_strlit("<!--topcoat-boundary ");
            reveal_strlit("<!--/topcoat-boundary ");
            reveal_strlit("-->");
            assert("<!--topcoat-boundary "@ =~= start_marker());
            assert("<!--/topcoat-boundary "@ =~= end_marker());
            assert("-->"@ =~= comment_close());
        }
        assert(out@ =~= boundary_html(self.identity, self.child@));
        string_of(&out)
    }
}

// ---------------------------------------------------------------------------
// A rendered boundary is found again
// ---------------------------------------------------------------------------

/// Hexadecimal digits are `0`-`9` and `a`-`f`.
proof fn lemma_hex_digits(x: nat, n: nat)
    ensures
        hex_digits(x, n).len() == n,
        forall|i: int|
            0 <= i < n ==> {
                let c = #[trigger] hex_digits(x, n)[i] as u32;
                (48 <= c <= 57) || (97 <= c <= 102)
            },
    decreases n,
{
    if n > 0 {
        lemma_hex_digits(x / 16, (n - 1) as nat);
        let d = x % 16;
        assert(d < 16);
        let c = hex_char(d);
        assert((c as u32 == 48 + d && d < 10) || (c as u32 == 87 + d && d >= 10));
        let h = hex_digits(x, n);
        assert forall|i: int| 0 <= i < n implies {
            let c = #[trigger] h[i] as u32;
            (48 <= c <= 57) || (97 <= c <= 102)
        } by {
            if i < n - 1 {
                assert(h[i] == hex_digits(x / 16, (n - 1) as nat)[i]);
            }
        }
    }
}

/// The characters of the markers that the proof below relies on.
proof fn lemma_marker_chars()
    ensures
        start_marker().len() == 21,
        end_marker().len() == 22,
        comment_close().len() == 3,
        start_marker()[0] == '<',
        end_marker()[0] == '<',
        start_marker()[4] == 't',
        end_marker()[4] == '/',
        forall|k: int| 1 <= k < 21 ==> #[trigger] start_marker()[k] != '<',
        forall|k: int| 1 <= k < 22 ==> #[trigger] end_marker()[k] != '<',
        forall|k: int| 0 <= k < 3 ==> #[trigger] comment_close()[k] != '<',
        comment_close()[0] == '-',
{
}

/// Finding an occurrence that is the first at or after `from`.
proof fn lemma_find_first(s: Seq<char>, pat: Seq<char>, from: int, i: int)
    requires
        0 <= from <= i,
        pat.len() > 0,
        occurs_at(s, pat, i),
        forall|j: int| from <= j < i ==> !occurs_at(s, pat, j),
    ensures
        find_from(s, pat, from) == Some(i),
    decreases i - from,
{
    if from < i {
        lemma_find_first(s, pat, from + 1, i);
    }
}

/// Finding nothing when nothing occurs at or after `from`.
proof fn lemma_find_none(s: Seq<char>, pat: Seq<char>, from: int)
    requires
        0 <= from,
        pat.len() > 0,
        forall|j: int| from <= j ==> !occurs_at(s, pat, j),
    ensures
        find_from(s, pat, from) is None,
    decreases s.len() - from,
{
    if from + pat.len() <= s.len() {
        lemma_find_none(s, pat, from + 1);
    }
}

/// `pat` does not occur in `s` at `j` when they differ at one place.
proof fn lemma_differs_at(s: Seq<char>, pat: Seq<char>, j: int, k: int)
    requires
        0 <= k < pat.len(),
        0 <= j + k < s.len(),
        s[j + k] != pat[k],
    ensures
        !occurs_at(s, pat, j),
{
    if occurs_at(s, pat, j) {
        assert(s.subrange(j, j + pat.len())[k] == s[j + k]);
    }
}

/// A boundary rendered around a child that holds no marker is found again by
/// the snapshot: one boundary, with the boundary's id, the child as its
/// content, the child's hash, and no parent.
#[verifier::rlimit(60)]
#[verifier::spinoff_prover]
pub proof fn law_rendered_boundary_is_found(identity: u128, child: Seq<char>)
    requires
        forall|i: int| !occurs_at(child, start_marker(), i),
        forall|i: int| !occurs_at(child, end_marker(), i),
    ensures
        boundary_map(boundary_html(identity, child)) == Map::<Seq<char>, BoundaryView>::empty().insert(
            hex32(identity),
            BoundaryView { content: child, hash: content_hash(child), parent: None },
        ),
{
    let s = start_marker();
    let e = end_marker();
    let c = comment_close();
    let h = hex32(identity);
    let html = boundary_html(identity, child);
    lemma_marker_chars();
    lemma_hex_digits(identity as nat, 32);
    let n = child.len() as int;
    let p = 56 + n;
    assert(html.len() == p + 57);
    // What each position holds.
    assert forall|k: int| 0 <= k < 21 implies #[trigger] html[k] == s[k] by {}
    assert forall|k: int| 21 <= k < 53 implies #[trigger] html[k] == h[k - 21] by {}
    assert forall|k: int| 53 <= k < 56 implies #[trigger] html[k] == c[k - 53] by {}
    assert forall|k: int| 56 <= k < p implies #[trigger] html[k] == child[k - 56] by {}
    assert forall|k: int| p <= k < p + 22 implies #[trigger] html[k] == e[k - p] by {}
    assert forall|k: int| p + 22 <= k < p + 54 implies #[trigger] html[k] == h[k - p - 22] by {}
    assert forall|k: int| p + 54 <= k < p + 57 implies #[trigger] html[k] == c[k - p - 54] by {}
    assert(html.subrange(0, 21) =~= s);
    assert(html.subrange(21, 53) =~= h);
    assert(html.subrange(53, 56) =~= c);
    assert(html.subrange(56, p) =~= child);
    assert(html.subrange(p, p + 22) =~= e);
    assert(html.subrange(p + 22, p + 54) =~= h);
    assert(html.subrange(p + 54, p + 57) =~= c);
    // A marker occurs only where `<` stands.
    assert forall|j: int| 56 <= j < p implies !occurs_at(html, s, j) by {
        if j + 21 <= p {
            if occurs_at(html, s, j) {
                assert(child.subrange(j - 56, j - 56 + 21) =~= html.subrange(j, j + 21));
                assert(occurs_at(child, s, j - 56));
            }
        } else {
            lemma_differs_at(html, s, j, p - j);
        }
    }
    assert forall|j: int| 56 <= j < p implies !occurs_at(html, e, j) by {
        if j + 22 <= p {
            if occurs_at(html, e, j) {
                assert(child.subrange(j - 56, j - 56 + 22) =~= html.subrange(j, j + 22));
                assert(occurs_at(child, e, j - 56));
            }
        } else {
            lemma_differs_at(html, e, j, p - j);
        }
    }
    assert forall|j: int| 0 <= j < 56 implies !occurs_at(html, e, j) by {
        if j == 0 {
            lemma_differs_at(html, e, j, 4);
        } else {
            lemma_differs_at(html, e, j, 0);
        }
    }
    assert forall|j: int| p <= j implies !occurs_at(html, s, j) by {
        if j == p {
            lemma_differs_at(html, s, j, 4);
        } else if j < p + 57 {
            lemma_differs_at(html, s, j, 0);
        }
    }
    assert forall|j: int| 21 <= j < 53 implies !occurs_at(html, c, j) by {
        lemma_differs_at(html, c, j, 0);
    }
    assert forall|j: int| p + 22 <= j < p + 54 implies !occurs_at(html, c, j) by {
        lemma_differs_at(html, c, j, 0);
    }
    assert forall|j: int| p < j implies !occurs_at(html, e, j) by {
        if j < p + 57 {
            lemma_differs_at(html, e, j, 0);
        }
    }
    // The scan finds the opening marker, then the closing one, then nothing.
    assert(occurs_at(html, s, 0));
    assert(occurs_at(html, e, p));
    assert(occurs_at(html, c, 53));
    assert(occurs_at(html, c, p + 54));
    lemma_find_first(html, s, 0, 0);
    lemma_find_first(html, e, 0, p);
    lemma_find_first(html, c, 21, 53);
    lemma_find_none(html, s, 56);
    lemma_find_first(html, e, 56, p);
    lemma_find_first(html, c, p + 22, p + 54);
    lemma_find_none(html, s, p + 57);
    lemma_find_none(html, e, p + 57);
    let m1 = Marker { opening: true, start: 0, id_start: 21, id_end: 53 };
    let m2 = Marker { opening: false, start: p, id_start: p + 22, id_end: p + 54 };
    assert(next_marker(html, 0) == Some(m1));
    assert(next_marker(html, 56) == Some(m2));
    assert(next_marker(html, p + 57) is None);
    assert(markers_from(html, p + 57) =~= Seq::<Marker>::empty());
    assert(markers_from(html, 56) =~= seq![m2]);
    assert(markers_from(html, 0) =~= seq![m1, m2]);
    // Matching pairs them into one span.
    let span = Span {
        id: h,
        marker_start: 0,
        content_start: 56,
        content_end: p,
        marker_end: p + 57,
    };
    let st0 = MatchState { stack: seq![], spans: seq![] };
    let open = Open { id: h, marker_start: 0, content_start: 56 };
    let st1 = MatchState { stack: seq![open], spans: seq![] };
    assert(marker_id(html, m1) == h);
    assert(marker_id(html, m2) == h);
    assert(match_step(html, st0, m1) == st1);
    assert(last_open_with(seq![open], h) == 0);
    assert(seq![open].remove(0) =~= Seq::<Open>::empty());
    let st2 = MatchState { stack: seq![], spans: seq![span] };
    assert(match_step(html, st1, m2) == st2);
    assert(seq![m1, m2].drop_first() =~= seq![m2]);
    assert(seq![m2].drop_first() =~= Seq::<Marker>::empty());
    assert(match_all(html, Seq::<Marker>::empty(), st2) == st2);
    assert(seq![m2][0] == m2);
    assert(match_all(html, seq![m2], st1) == st2);
    assert(match_all(html, seq![m1, m2], st0) == st2);
    let spans = spans_of(html);
    assert(spans == seq![span]);
    // The one span is its own winner, has no child and no parent.
    assert(is_winner(spans, 0));
    let w = winner_of(spans, h);
    assert(w == 0);
    assert(!exists|i: int| is_first_child(spans, span, 56, i));
    assert(normalized(html, spans, span) == child);
    assert(!exists|i: int| is_parent(spans, span, i));
    assert(boundary_map(html) =~= Map::<Seq<char>, BoundaryView>::empty().insert(
        h,
        BoundaryView { content: child, hash: content_hash(child), parent: None },
    ));
}

/// The markers that render the boundary `id` around `child`, with any text
/// around them.
pub open spec fn marked_page(pre: Seq<char>, id: Seq<char>, child: Seq<char>, post: Seq<char>) -> Seq<char> {
    pre + start_marker() + id + comment_close() + child + end_marker() + id + comment_close() + post
}

/// The markers of such a page: its opening marker, then its closing one.
#[verifier::rlimit(60)]
#[verifier::spinoff_prover]
proof fn lemma_marked_markers(pre: Seq<char>, id: Seq<char>, child: Seq<char>, post: Seq<char>)
    requires
        forall|i: int| 0 <= i < id.len() ==> !occurs_at(id + comment_close(), comment_close(), i),
        forall|j: int|
            occurs_at(marked_page(pre, id, child, post), start_marker(), j) ==> j == pre.len(),
        forall|j: int|
            occurs_at(marked_page(pre, id, child, post), end_marker(), j) ==> j == pre.len() + 21
                + id.len() + 3 + child.len(),
    ensures
        ({
            let a0 = pre.len() as int;
            let q = a0 + 21 + id.len() + 3 + child.len();
            &&& markers_from(marked_page(pre, id, child, post), 0) == seq![
                Marker { opening: true, start: a0, id_start: a0 + 21, id_end: a0 + 21 + id.len() },
                Marker { opening: false, start: q, id_start: q + 22, id_end: q + 22 + id.len() },
            ]
            &&& marked_page(pre, id, child, post).subrange(a0 + 21, a0 + 21 + id.len()) == id
            &&& marked_page(pre, id, child, post).subrange(q + 22, q + 22 + id.len()) == id
            &&& marked_page(pre, id, child, post).subrange(a0 + 21 + id.len() + 3, q) == child
        }),
{
    let sm = start_marker();
    let em = end_marker();
    let cc = comment_close();
    let html = marked_page(pre, id, child, post);
    let a0 = pre.len() as int;
    let is1 = a0 + 21;
    let ie1 = is1 + id.len();
    let cs = ie1 + 3;
    let q = cs + child.len();
    let is2 = q + 22;
    let ie2 = is2 + id.len();
    let me = ie2 + 3;
    assert(sm.len() == 21 && em.len() == 22 && cc.len() == 3);
    assert(html.len() == me + post.len());
    assert(html.subrange(a0, is1) =~= sm);
    assert(html.subrange(is1, ie1) =~= id);
    assert(html.subrange(ie1, cs) =~= cc);
    assert(html.subrange(cs, q) =~= child);
    assert(html.subrange(q, is2) =~= em);
    assert(html.subrange(is2, ie2) =~= id);
    assert(html.subrange(ie2, me) =~= cc);
    assert(occurs_at(html, sm, a0));
    assert(occurs_at(html, em, q));
    assert(occurs_at(html, cc, ie1));
    assert(occurs_at(html, cc, ie2));
    let ic = id + cc;
    assert(html.subrange(is1, cs) =~= ic);
    assert(html.subrange(is2, me) =~= ic);
    assert forall|j: int| is1 <= j < ie1 implies !occurs_at(html, cc, j) by {
        if occurs_at(html, cc, j) {
            assert(ic.subrange(j - is1, j - is1 + 3) =~= html.subrange(j, j + 3));
            assert(occurs_at(ic, cc, j - is1));
        }
    }
    assert forall|j: int| is2 <= j < ie2 implies !occurs_at(html, cc, j) by {
        if occurs_at(html, cc, j) {
            assert(ic.subrange(j - is2, j - is2 + 3) =~= html.subrange(j, j + 3));
            assert(occurs_at(ic, cc, j - is2));
        }
    }
    lemma_find_first(html, sm, 0, a0);
    lemma_find_first(html, em, 0, q);
    lemma_find_first(html, cc, is1, ie1);
    lemma_find_none(html, sm, cs);
    lemma_find_first(html, em, cs, q);
    lemma_find_first(html, cc, is2, ie2);
    lemma_find_none(html, sm, me);
    lemma_find_none(html, em, me);
    let m1 = Marker { opening: true, start: a0, id_start: is1, id_end: ie1 };
    let m2 = Marker { opening: false, start: q, id_start: is2, id_end: ie2 };
    assert(next_marker(html, 0) == Some(m1));
    assert(next_marker(html, cs) == Some(m2));
    assert(next_marker(html, me) is None);
    assert(markers_from(html, me) =~= Seq::<Marker>::empty());
    assert(markers_from(html, cs) =~= seq![m2]);
    assert(markers_from(html, 0) =~= seq![m1, m2]);
}

/// A page whose only opening marker and only closing marker are those of the
/// boundary `id` around `child` has that one boundary: its content is the
/// child, its hash the child's, and it has no parent. (`id` ends at the
/// first `-->` after it.)
pub proof fn law_marked_boundary_is_found(pre: Seq<char>, id: Seq<char>, child: Seq<char>, post: Seq<char>)
    requires
        forall|i: int| 0 <= i < id.len() ==> !occurs_at(id + comment_close(), comment_close(), i),
        forall|j: int|
            occurs_at(marked_page(pre, id, child, post), start_marker(), j) ==> j == pre.len(),
        forall|j: int|
            occurs_at(marked_page(pre, id, child, post), end_marker(), j) ==> j == pre.len() + 21
                + id.len() + 3 + child.len(),
    ensures
        boundary_map(marked_page(pre, id, child, post)) == Map::<Seq<char>, BoundaryView>::empty().insert(
            id,
            BoundaryView { content: child, hash: content_hash(child), parent: None },
        ),
{
    let html = marked_page(pre, id, child, post);
    lemma_marked_markers(pre, id, child, post);
    let a0 = pre.len() as int;
    let is1 = a0 + 21;
    let ie1 = is1 + id.len();
    let cs = ie1 + 3;
    let q = cs + child.len();
    let is2 = q + 22;
    let ie2 = is2 + id.len();
    let me = ie2 + 3;
    let m1 = Marker { opening: true, start: a0, id_start: is1, id_end: ie1 };
    let m2 = Marker { opening: false, start: q, id_start: is2, id_end: ie2 };
    let span = Span { id, marker_start: a0, content_start: cs, content_end: q, marker_end: me };
    let st0 = MatchState { stack: seq![], spans: seq![] };
    let open = Open { id, marker_start: a0, content_start: cs };
    let st1 = MatchState { stack: seq![open], spans: seq![] };
    assert(marker_id(html, m1) == id);
    assert(marker_id(html, m2) == id);
    assert(match_step(html, st0, m1) == st1);
    assert(last_open_with(seq![open], id) == 0);
    assert(seq![open].remove(0) =~= Seq::<Open>::empty());
    let st2 = MatchState { stack: seq![], spans: seq![span] };
    assert(match_step(html, st1, m2) == st2);
    assert(seq![m1, m2].drop_first() =~= seq![m2]);
    assert(seq![m2].drop_first() =~= Seq::<Marker>::empty());
    assert(match_all(html, Seq::<Marker>::empty(), st2) == st2);
    assert(seq![m2][0] == m2);
    assert(match_all(html, seq![m2], st1) == st2);
    assert(match_all(html, seq![m1, m2], st0) == st2);
    let spans = spans_of(html);
    assert(spans == seq![span]);
    assert(is_winner(spans, 0));
    assert(winner_of(spans, id) == 0);
    assert(!exists|i: int| is_first_child(spans, span, cs, i));
    assert(normalized(html, spans, span) == child);
    assert(!exists|i: int| is_parent(spans, span, i));
    assert(boundary_map(html) =~= Map::<Seq<char>, BoundaryView>::empty().insert(
        id,
        BoundaryView { content: child, hash: content_hash(child), parent: None },
    ));
}

// ---------------------------------------------------------------------------
// A change inside a nested boundary swaps only that boundary
// ---------------------------------------------------------------------------

/// `16` to the power `n`.
pub open spec fn pow16(n: nat) -> nat
    decreases n,
{
    if n == 0 {
        1
    } else {
        16 * pow16((n - 1) as nat)
    }
}

proof fn lemma_hex_digits_determine(x: nat, y: nat, n: nat)
    requires
        hex_digits(x, n) == hex_digits(y, n),
    ensures
        x % pow16(n) == y % pow16(n),
    decreases n,
{
    if n > 0 {
        let m = (n - 1) as nat;
        let hx = hex_digits(x, n);
        let hy = hex_digits(y, n);
        assert(hx.drop_last() =~= hex_digits(x / 16, m));
        assert(hy.drop_last() =~= hex_digits(y / 16, m));
        lemma_hex_digits_determine(x / 16, y / 16, m);
        assert(hx.last() == hex_char(x % 16));
        assert(hy.last() == hex_char(y % 16));
        assert(x % 16 == y % 16) by {
            let a = x % 16;
            let b = y % 16;
            assert(hex_char(a) as u32 == if a < 10 { 48 + a } else { 87 + a });
            assert(hex_char(b) as u32 == if b < 10 { 48 + b } else { 87 + b });
        }
        lemma_pow16_positive(m);
        vstd::arithmetic::div_mod::lemma_breakdown(x as int, 16, pow16(m) as int);
        vstd::arithmetic::div_mod::lemma_breakdown(y as int, 16, pow16(m) as int);
    } else {
        assert(x % 1 == 0 && y % 1 == 0);
    }
}

proof fn lemma_pow16_positive(n: nat)
    ensures
        pow16(n) > 0,
    decreases n,
{
    if n > 0 {
        lemma_pow16_positive((n - 1) as nat);
    }
}

/// Distinct identities get distinct marker ids.
pub proof fn lemma_hex32_injective(x: u128, y: u128)
    requires
        x != y,
    ensures
        hex32(x) != hex32(y),
{
    if hex32(x) == hex32(y) {
        lemma_hex_digits_determine(x as nat, y as nat, 32);
        assert(pow16(32) == 0x1_0000_0000_0000_0000_0000_0000_0000_0000) by {
            reveal_with_fuel(pow16, 33);
        }
        vstd::arithmetic::div_mod::lemma_small_mod(x as nat, pow16(32));
        vstd::arithmetic::div_mod::lemma_small_mod(y as nat, pow16(32));
    }
}

/// No character of the region `[lo, hi)` is `c`.
spec fn region_avoids(html: Seq<char>, lo: int, hi: int, c: char) -> bool {
    forall|k: int| lo <= k < hi ==> #[trigger] html[k] != c
}

/// A pattern that starts with `c` does not occur where `c` does not stand.
proof fn lemma_no_occurrence_without_first(html: Seq<char>, pat: Seq<char>, lo: int, hi: int)
    requires
        0 <= lo,
        hi <= html.len(),
        pat.len() > 0,
        region_avoids(html, lo, hi, pat[0]),
    ensures
        forall|j: int| lo <= j < hi ==> !occurs_at(html, pat, j),
{
    assert forall|j: int| lo <= j < hi implies !occurs_at(html, pat, j) by {
        lemma_differs_at(html, pat, j, 0);
    }
}

/// A marker (a pattern with `<` only first) does not occur in a region that
/// holds no occurrence of it and is followed by `<` or by the end.
proof fn lemma_segment_free(html: Seq<char>, pat: Seq<char>, lo: int, hi: int)
    requires
        0 <= lo <= hi <= html.len(),
        pat.len() > 0,
        pat[0] == '<',
        forall|k: int| 1 <= k < pat.len() ==> #[trigger] pat[k] != '<',
        forall|i: int| !occurs_at(html.subrange(lo, hi), pat, i),
        hi < html.len() ==> html[hi] == '<',
    ensures
        forall|j: int| lo <= j < hi ==> !occurs_at(html, pat, j),
{
    let seg = html.subrange(lo, hi);
    assert forall|j: int| lo <= j < hi implies !occurs_at(html, pat, j) by {
        if j + pat.len() <= hi {
            if occurs_at(html, pat, j) {
                assert(seg.subrange(j - lo, j - lo + pat.len()) =~= html.subrange(j, j + pat.len()));
                assert(occurs_at(seg, pat, j - lo));
            }
        } else if hi < html.len() {
            lemma_differs_at(html, pat, j, hi - j);
        }
    }
}

/// Where each part of a rendered boundary stands.
#[verifier::rlimit(50)]
#[verifier::spinoff_prover]
proof fn lemma_boundary_layout(id: u128, x: Seq<char>)
    ensures
        ({
            let html = boundary_html(id, x);
            let h = hex32(id);
            let p = 56 + x.len() as int;
            &&& html.len() == p + 57
            &&& html.subrange(0, 21) == start_marker()
            &&& html.subrange(21, 53) == h
            &&& html.subrange(53, 56) == comment_close()
            &&& html.subrange(56, p) == x
            &&& html.subrange(p, p + 22) == end_marker()
            &&& html.subrange(p + 22, p + 54) == h
            &&& html.subrange(p + 54, p + 57) == comment_close()
            &&& html[0] == '<'
            &&& html[4] == 't'
            &&& html[p] == '<'
            &&& html[p + 4] == '/'
            &&& region_avoids(html, 1, 56, '<')
            &&& region_avoids(html, p + 1, p + 57, '<')
            &&& region_avoids(html, 21, 53, '-')
            &&& region_avoids(html, p + 22, p + 54, '-')
        }),
{
    let html = boundary_html(id, x);
    let h = hex32(id);
    let s = start_marker();
    let e = end_marker();
    let c = comment_close();
    let p = 56 + x.len() as int;
    lemma_marker_chars();
    lemma_hex_digits(id as nat, 32);
    assert(html.subrange(0, 21) =~= s);
    assert(html.subrange(21, 53) =~= h);
    assert(html.subrange(53, 56) =~= c);
    assert(html.subrange(56, p) =~= x);
    assert(html.subrange(p, p + 22) =~= e);
    assert(html.subrange(p + 22, p + 54) =~= h);
    assert(html.subrange(p + 54, p + 57) =~= c);
    assert forall|k: int| 1 <= k < 56 implies #[trigger] html[k] != '<' by {
        if k < 21 {
            assert(html[k] == s[k]);
        } else if k < 53 {
            assert(html[k] == h[k - 21]);
        } else {
            assert(html[k] == c[k - 53]);
        }
    }
    assert forall|k: int| p + 1 <= k < p + 57 implies #[trigger] html[k] != '<' by {
        if k < p + 22 {
            assert(html[k] == e[k - p]);
        } else if k < p + 54 {
            assert(html[k] == h[k - p - 22]);
        } else {
            assert(html[k] == c[k - p - 54]);
        }
    }
    assert forall|k: int| 21 <= k < 53 implies #[trigger] html[k] != '-' by {
        assert(html[k] == h[k - 21]);
    }
    assert forall|k: int| p + 22 <= k < p + 54 implies #[trigger] html[k] != '-' by {
        assert(html[k] == h[k - p - 22]);
    }
    assert(html[0] == s[0]);
    assert(html[4] == s[4]);
    assert(html[p] == e[0]);
    assert(html[p + 4] == e[4]);
}

/// A boundary `parent` whose child markup is `before`, then a boundary
/// `child` around `inner`, then `after`.
pub open spec fn nested_boundary_html(
    parent: u128,
    child: u128,
    before: Seq<char>,
    inner: Seq<char>,
    after: Seq<char>,
) -> Seq<char> {
    boundary_html(parent, before + boundary_html(child, inner) + after)
}

/// Holds no opening and no closing marker.
pub open spec fn marker_free(s: Seq<char>) -> bool {
    &&& forall|i: int| !occurs_at(s, start_marker(), i)
    &&& forall|i: int| !occurs_at(s, end_marker(), i)
}

/// What the positions of a nested page hold, in the terms the scan needs.
spec fn nested_facts(html: Seq<char>, hp: Seq<char>, hc: Seq<char>, before: Seq<char>, inner: Seq<char>, after: Seq<char>) -> bool {
    let q = 56 + before.len() as int;
    let r = q + 56 + inner.len() as int as int;
    let t = r + 57 + after.len() as int;
    &&& html.len() == t + 57
    &&& html.subrange(0, 21) == start_marker()
    &&& html.subrange(21, 53) == hp
    &&& html.subrange(53, 56) == comment_close()
    &&& html.subrange(56, q) == before
    &&& html.subrange(q, q + 21) == start_marker()
    &&& html.subrange(q + 21, q + 53) == hc
    &&& html.subrange(q + 53, q + 56) == comment_close()
    &&& html.subrange(q + 56, r) == inner
    &&& html.subrange(r, r + 22) == end_marker()
    &&& html.subrange(r + 22, r + 54) == hc
    &&& html.subrange(r + 54, r + 57) == comment_close()
    &&& html.subrange(r + 57, t) == after
    &&& html.subrange(t, t + 22) == end_marker()
    &&& html.subrange(t + 22, t + 54) == hp
    &&& html.subrange(t + 54, t + 57) == comment_close()
    &&& html[q] == '<' && html[q + 4] == 't'
    &&& html[r] == '<' && html[r + 4] == '/'
    &&& html[t] == '<' && html[t + 4] == '/'
    &&& html[4] == 't'
    &&& region_avoids(html, 1, 56, '<')
    &&& region_avoids(html, q + 1, q + 56, '<')
    &&& region_avoids(html, r + 1, r + 57, '<')
    &&& region_avoids(html, t + 1, t + 57, '<')
    &&& region_avoids(html, 21, 53, '-')
    &&& region_avoids(html, q + 21, q + 53, '-')
    &&& region_avoids(html, r + 22, r + 54, '-')
    &&& region_avoids(html, t + 22, t + 54, '-')
}

/// Facts about a part carry over to where the part stands in a page.
proof fn lemma_embedded(html: Seq<char>, a: int, part: Seq<char>)
    requires
        0 <= a,
        a + part.len() <= html.len(),
        html.subrange(a, a + part.len()) == part,
    ensures
        forall|k: int| 0 <= k < part.len() ==> html[a + k] == #[trigger] part[k],
        forall|lo: int, hi: int|
            0 <= lo <= hi <= part.len() ==> #[trigger] part.subrange(lo, hi) == html.subrange(
                a + lo,
                a + hi,
            ),
{
    assert forall|k: int| 0 <= k < part.len() implies html[a + k] == #[trigger] part[k] by {
        assert(html.subrange(a, a + part.len())[k] == html[a + k]);
    }
    assert forall|lo: int, hi: int| 0 <= lo <= hi <= part.len() implies #[trigger] part.subrange(
        lo,
        hi,
    ) == html.subrange(a + lo, a + hi) by {
        assert(part.subrange(lo, hi) =~= html.subrange(a + lo, a + hi));
    }
}

proof fn lemma_embedded_avoids(html: Seq<char>, a: int, part: Seq<char>, lo: int, hi: int, c: char)
    requires
        0 <= a,
        0 <= lo <= hi <= part.len(),
        a + part.len() <= html.len(),
        html.subrange(a, a + part.len()) == part,
        region_avoids(part, lo, hi, c),
    ensures
        region_avoids(html, a + lo, a + hi, c),
{
    lemma_embedded(html, a, part);
    assert forall|k: int| a + lo <= k < a + hi implies #[trigger] html[k] != c by {
        assert(part[k - a] != c);
    }
}

/// Where the parts of the middle of a nested page stand.
proof fn lemma_middle_layout(before: Seq<char>, ih: Seq<char>, after: Seq<char>)
    ensures
        ({
            let mid = before + ih + after;
            let na = before.len() as int;
            let li = ih.len() as int;
            &&& mid.len() == na + li + after.len()
            &&& mid.subrange(0, na) == before
            &&& mid.subrange(na, na + li) == ih
            &&& mid.subrange(na + li, mid.len() as int) == after
        }),
{
    let mid = before + ih + after;
    let na = before.len() as int;
    let li = ih.len() as int;
    assert(mid.subrange(0, na) =~= before);
    assert(mid.subrange(na, na + li) =~= ih);
    assert(mid.subrange(na + li, mid.len() as int) =~= after);
}

#[verifier::rlimit(50)]
#[verifier::spinoff_prover]
proof fn lemma_nested_facts(
    parent: u128,
    child: u128,
    before: Seq<char>,
    inner: Seq<char>,
    after: Seq<char>,
)
    ensures
        nested_facts(
            nested_boundary_html(parent, child, before, inner, after),
            hex32(parent),
            hex32(child),
            before,
            inner,
            after,
        ),
{
    let html = nested_boundary_html(parent, child, before, inner, after);
    let ih = boundary_html(child, inner);
    let mid = before + ih + after;
    lemma_boundary_layout(parent, mid);
    lemma_boundary_layout(child, inner);
    lemma_middle_layout(before, ih, after);
    let na = before.len() as int;
    let li = ih.len() as int;
    let q = 56 + na;
    let r = q + 56 + inner.len() as int;
    let t = r + 57 + after.len() as int;
    assert(t == 56 + mid.len());
    // The middle stands at 56; its parts at 56, q and r + 57.
    lemma_embedded(html, 56, mid);
    assert(html.subrange(56, q) == before);
    assert(html.subrange(q, q + li) == ih);
    assert(html.subrange(r + 57, t) == after);
    lemma_embedded(html, q, ih);
    let p = 56 + inner.len() as int;
    assert(html.subrange(q, q + 21) == ih.subrange(0, 21));
    assert(html.subrange(q + 21, q + 53) == ih.subrange(21, 53));
    assert(html.subrange(q + 53, q + 56) == ih.subrange(53, 56));
    assert(html.subrange(q + 56, r) == ih.subrange(56, p));
    assert(html.subrange(r, r + 22) == ih.subrange(p, p + 22));
    assert(html.subrange(r + 22, r + 54) == ih.subrange(p + 22, p + 54));
    assert(html.subrange(r + 54, r + 57) == ih.subrange(p + 54, p + 57));
    assert(html[q] == ih[0]);
    assert(html[q + 4] == ih[4]);
    assert(html[r] == ih[p]);
    assert(html[r + 4] == ih[p + 4]);
    lemma_embedded_avoids(html, q, ih, 1, 56, '<');
    lemma_embedded_avoids(html, q, ih, p + 1, p + 57, '<');
    lemma_embedded_avoids(html, q, ih, 21, 53, '-');
    lemma_embedded_avoids(html, q, ih, p + 22, p + 54, '-');
}

/// The markers of a nested page: the parent opens, the child opens and
/// closes, the parent closes.
#[verifier::rlimit(50)]
#[verifier::spinoff_prover]
proof fn lemma_nested_markers(html: Seq<char>, hp: Seq<char>, hc: Seq<char>, before: Seq<char>, inner: Seq<char>, after: Seq<char>)
    requires
        nested_facts(html, hp, hc, before, inner, after),
        marker_free(before),
        marker_free(inner),
        marker_free(after),
    ensures
        ({
            let q = 56 + before.len() as int;
            let r = q + 56 + inner.len() as int as int;
            let t = r + 57 + after.len() as int;
            markers_from(html, 0) == seq![
                Marker { opening: true, start: 0, id_start: 21, id_end: 53 },
                Marker { opening: true, start: q, id_start: q + 21, id_end: q + 53 },
                Marker { opening: false, start: r, id_start: r + 22, id_end: r + 54 },
                Marker { opening: false, start: t, id_start: t + 22, id_end: t + 54 },
            ]
        }),
{
    let s = start_marker();
    let e = end_marker();
    let c = comment_close();
    lemma_marker_chars();
    let q = 56 + before.len() as int;
    let r = q + 56 + inner.len() as int as int;
    let t = r + 57 + after.len() as int;
    lemma_no_occurrence_without_first(html, s, 1, 56);
    lemma_no_occurrence_without_first(html, e, 1, 56);
    lemma_no_occurrence_without_first(html, s, q + 1, q + 56);
    lemma_no_occurrence_without_first(html, e, q + 1, q + 56);
    lemma_no_occurrence_without_first(html, s, r + 1, r + 57);
    lemma_no_occurrence_without_first(html, e, r + 1, r + 57);
    lemma_no_occurrence_without_first(html, s, t + 1, t + 57);
    lemma_no_occurrence_without_first(html, e, t + 1, t + 57);
    lemma_no_occurrence_without_first(html, c, 21, 53);
    lemma_no_occurrence_without_first(html, c, q + 21, q + 53);
    lemma_no_occurrence_without_first(html, c, r + 22, r + 54);
    lemma_no_occurrence_without_first(html, c, t + 22, t + 54);
    lemma_segment_free(html, s, 56, q);
    lemma_segment_free(html, e, 56, q);
    lemma_segment_free(html, s, q + 56, r);
    lemma_segment_free(html, e, q + 56, r);
    lemma_segment_free(html, s, r + 57, t);
    lemma_segment_free(html, e, r + 57, t);
    lemma_differs_at(html, e, 0, 4);
    lemma_differs_at(html, e, q, 4);
    lemma_differs_at(html, s, r, 4);
    lemma_differs_at(html, s, t, 4);
    assert(occurs_at(html, s, 0));
    assert(occurs_at(html, s, q));
    assert(occurs_at(html, e, r));
    assert(occurs_at(html, e, t));
    assert(occurs_at(html, c, 53));
    assert(occurs_at(html, c, q + 53));
    assert(occurs_at(html, c, r + 54));
    assert(occurs_at(html, c, t + 54));
    lemma_find_first(html, s, 0, 0);
    lemma_find_first(html, e, 0, r);
    lemma_find_first(html, c, 21, 53);
    lemma_find_first(html, s, 56, q);
    lemma_find_first(html, e, 56, r);
    lemma_find_first(html, c, q + 21, q + 53);
    lemma_find_none(html, s, q + 56);
    lemma_find_first(html, e, q + 56, r);
    lemma_find_first(html, c, r + 22, r + 54);
    lemma_find_none(html, s, r + 57);
    lemma_find_first(html, e, r + 57, t);
    lemma_find_first(html, c, t + 22, t + 54);
    lemma_find_none(html, s, t + 57);
    lemma_find_none(html, e, t + 57);
    let m1 = Marker { opening: true, start: 0, id_start: 21, id_end: 53 };
    let m2 = Marker { opening: true, start: q, id_start: q + 21, id_end: q + 53 };
    let m3 = Marker { opening: false, start: r, id_start: r + 22, id_end: r + 54 };
    let m4 = Marker { opening: false, start: t, id_start: t + 22, id_end: t + 54 };
    assert(next_marker(html, 0) == Some(m1));
    assert(next_marker(html, 56) == Some(m2));
    assert(next_marker(html, q + 56) == Some(m3));
    assert(next_marker(html, r + 57) == Some(m4));
    assert(next_marker(html, t + 57) is None);
    assert(markers_from(html, t + 57) =~= Seq::<Marker>::empty());
    assert(markers_from(html, r + 57) =~= seq![m4]);
    assert(markers_from(html, q + 56) =~= seq![m3, m4]);
    assert(markers_from(html, 56) =~= seq![m2, m3, m4]);
    assert(markers_from(html, 0) =~= seq![m1, m2, m3, m4]);
}

/// Matching the markers of a nested page gives the child's span, then the
/// parent's.
#[verifier::rlimit(50)]
#[verifier::spinoff_prover]
proof fn lemma_nested_spans(html: Seq<char>, hp: Seq<char>, hc: Seq<char>, before: Seq<char>, inner: Seq<char>, after: Seq<char>)
    requires
        nested_facts(html, hp, hc, before, inner, after),
        ({
            let q = 56 + before.len() as int;
            let r = q + 56 + inner.len() as int;
            let t = r + 57 + after.len() as int;
            markers_from(html, 0) == seq![
                Marker { opening: true, start: 0, id_start: 21, id_end: 53 },
                Marker { opening: true, start: q, id_start: q + 21, id_end: q + 53 },
                Marker { opening: false, start: r, id_start: r + 22, id_end: r + 54 },
                Marker { opening: false, start: t, id_start: t + 22, id_end: t + 54 },
            ]
        }),
    ensures
        ({
            let q = 56 + before.len() as int;
            let r = q + 56 + inner.len() as int;
            let t = r + 57 + after.len() as int;
            spans_of(html) == seq![
                Span { id: hc, marker_start: q, content_start: q + 56, content_end: r, marker_end: r + 57 },
                Span { id: hp, marker_start: 0, content_start: 56, content_end: t, marker_end: t + 57 },
            ]
        }),
{
    let q = 56 + before.len() as int;
    let r = q + 56 + inner.len() as int;
    let t = r + 57 + after.len() as int;
    let m1 = Marker { opening: true, start: 0, id_start: 21, id_end: 53 };
    let m2 = Marker { opening: true, start: q, id_start: q + 21, id_end: q + 53 };
    let m3 = Marker { opening: false, start: r, id_start: r + 22, id_end: r + 54 };
    let m4 = Marker { opening: false, start: t, id_start: t + 22, id_end: t + 54 };
    // Matching pairs them into two spans.
    assert(marker_id(html, m1) == hp);
    assert(marker_id(html, m2) == hc);
    assert(marker_id(html, m3) == hc);
    assert(marker_id(html, m4) == hp);
    let op = Open { id: hp, marker_start: 0, content_start: 56 };
    let oc = Open { id: hc, marker_start: q, content_start: q + 56 };
    let sc = Span { id: hc, marker_start: q, content_start: q + 56, content_end: r, marker_end: r + 57 };
    let sp = Span { id: hp, marker_start: 0, content_start: 56, content_end: t, marker_end: t + 57 };
    let st0 = MatchState { stack: seq![], spans: seq![] };
    let st1 = MatchState { stack: seq![op], spans: seq![] };
    let st2 = MatchState { stack: seq![op, oc], spans: seq![] };
    let st3 = MatchState { stack: seq![op], spans: seq![sc] };
    let st4 = MatchState { stack: seq![], spans: seq![sc, sp] };
    assert(st0.stack.push(op) =~= st1.stack);
    assert(match_step(html, st0, m1) == st1);
    assert(st1.stack.push(oc) =~= st2.stack);
    assert(match_step(html, st1, m2) == st2);
    assert(last_open_with(seq![op, oc], hc) == 1);
    assert(seq![op, oc].remove(1) =~= seq![op]);
    assert(seq![sc] =~= Seq::<Span>::empty().push(sc));
    assert(match_step(html, st2, m3) == st3);
    assert(seq![op].drop_last() =~= Seq::<Open>::empty());
    assert(last_open_with(seq![op], hp) == 0);
    assert(seq![op].remove(0) =~= Seq::<Open>::empty());
    assert(seq![sc].push(sp) =~= seq![sc, sp]);
    assert(match_step(html, st3, m4) == st4);
    let ms = seq![m1, m2, m3, m4];
    assert(ms.drop_first() =~= seq![m2, m3, m4]);
    assert(seq![m2, m3, m4].drop_first() =~= seq![m3, m4]);
    assert(seq![m3, m4].drop_first() =~= seq![m4]);
    assert(seq![m4].drop_first() =~= Seq::<Marker>::empty());
    assert(match_all(html, Seq::<Marker>::empty(), st4) == st4);
    assert(match_all(html, seq![m4], st3) == st4);
    assert(match_all(html, seq![m3, m4], st2) == st4);
    assert(match_all(html, seq![m2, m3, m4], st1) == st4);
    assert(match_all(html, ms, st0) == st4);
    assert(spans_of(html) == st4.spans);
}

/// What the snapshot records of each boundary of a nested page.
#[verifier::rlimit(50)]
#[verifier::spinoff_prover]
proof fn lemma_nested_views(
    html: Seq<char>,
    hp: Seq<char>,
    hc: Seq<char>,
    before: Seq<char>,
    inner: Seq<char>,
    after: Seq<char>,
    mid: Seq<char>,
)
    requires
        hp != hc,
        nested_facts(html, hp, hc, before, inner, after),
        html.subrange(56, 56 + mid.len() as int) == mid,
        mid.len() == before.len() + inner.len() + after.len() + 113,
        ({
            let q = 56 + before.len() as int;
            let r = q + 56 + inner.len() as int;
            let t = r + 57 + after.len() as int;
            spans_of(html) == seq![
                Span { id: hc, marker_start: q, content_start: q + 56, content_end: r, marker_end: r + 57 },
                Span { id: hp, marker_start: 0, content_start: 56, content_end: t, marker_end: t + 57 },
            ]
        }),
    ensures
        boundary_map(html) == Map::<Seq<char>, BoundaryView>::empty().insert(
            hc,
            BoundaryView { content: inner, hash: content_hash(inner), parent: Some(hp) },
        ).insert(
            hp,
            BoundaryView {
                content: mid,
                hash: content_hash(before + boundary_ref(hc) + after),
                parent: None,
            },
        ),
{
    let q = 56 + before.len() as int;
    let r = q + 56 + inner.len() as int;
    let t = r + 57 + after.len() as int;
    let spans = spans_of(html);
    let sc = spans[0];
    let sp = spans[1];
    // Each is the winner of its id.
    assert(is_winner(spans, 0));
    assert(is_winner(spans, 1));
    assert(winner_of(spans, hc) == 0);
    assert(winner_of(spans, hp) == 1);
    // The child has no child; the parent has the child.
    let child_start = q + 56;
    let after_start = r + 57;
    assert(!exists|i: int| is_first_child(spans, sc, child_start, i));
    assert(normalized(html, spans, sc) == inner);
    assert(is_first_child(spans, sp, 56, 0));
    assert(!exists|i: int| is_first_child(spans, sp, after_start, i));
    assert(normalized_from(html, spans, sp, after_start) == after);
    assert(normalized_from(html, spans, sp, 56) =~= before + boundary_ref(hc) + after);
    // The parent encloses the child and nothing encloses the parent.
    assert(is_parent(spans, sc, 1));
    assert(!exists|i: int| is_parent(spans, sp, i));
    assert(t == 56 + mid.len());
    lemma_two_boundaries(
        html,
        hc,
        hp,
        BoundaryView { content: inner, hash: content_hash(inner), parent: Some(hp) },
        BoundaryView {
            content: mid,
            hash: content_hash(before + boundary_ref(hc) + after),
            parent: None,
        },
    );
}

/// The boundaries of a nested page: the child, with its content and the
/// parent as its parent; the parent, hashed with the child standing as a
/// reference.
pub proof fn law_nested_boundaries_are_found(
    parent: u128,
    child: u128,
    before: Seq<char>,
    inner: Seq<char>,
    after: Seq<char>,
)
    requires
        parent != child,
        marker_free(before),
        marker_free(inner),
        marker_free(after),
    ensures
        boundary_map(nested_boundary_html(parent, child, before, inner, after)) == Map::<
            Seq<char>,
            BoundaryView,
        >::empty().insert(
            hex32(child),
            BoundaryView { content: inner, hash: content_hash(inner), parent: Some(hex32(parent)) },
        ).insert(
            hex32(parent),
            BoundaryView {
                content: before + boundary_html(child, inner) + after,
                hash: content_hash(before + boundary_ref(hex32(child)) + after),
                parent: None,
            },
        ),
{
    let hp = hex32(parent);
    let hc = hex32(child);
    let html = nested_boundary_html(parent, child, before, inner, after);
    let mid = before + boundary_html(child, inner) + after;
    lemma_hex32_injective(parent, child);
    lemma_nested_facts(parent, child, before, inner, after);
    lemma_nested_markers(html, hp, hc, before, inner, after);
    lemma_nested_spans(html, hp, hc, before, inner, after);
    lemma_boundary_layout(parent, mid);
    lemma_nested_views(html, hp, hc, before, inner, after, mid);
}

/// A page whose two spans carry distinct ids has exactly those two
/// boundaries.
proof fn lemma_two_boundaries(
    html: Seq<char>,
    hc: Seq<char>,
    hp: Seq<char>,
    cv: BoundaryView,
    pv: BoundaryView,
)
    requires
        hp != hc,
        spans_of(html).len() == 2,
        spans_of(html)[0].id == hc,
        spans_of(html)[1].id == hp,
        winner_of(spans_of(html), hc) == 0,
        winner_of(spans_of(html), hp) == 1,
        crate::reconcile::span_boundary(html, spans_of(html), spans_of(html)[0]) == cv,
        crate::reconcile::span_boundary(html, spans_of(html), spans_of(html)[1]) == pv,
    ensures
        boundary_map(html) == Map::<Seq<char>, BoundaryView>::empty().insert(hc, cv).insert(hp, pv),
{
    let spans = spans_of(html);
    let target = Map::<Seq<char>, BoundaryView>::empty().insert(hc, cv).insert(hp, pv);
    let m = boundary_map(html);
    assert forall|id: Seq<char>| #[trigger] m.contains_key(id) <==> target.contains_key(id) by {
        if m.contains_key(id) {
            let i = choose|i: int| 0 <= i < spans.len() && spans[i].id == id;
            assert(i == 0 || i == 1);
        }
        if id == hc {
            assert(0 <= 0 < spans.len() && spans[0].id == id);
        }
        if id == hp {
            assert(0 <= 1 < spans.len() && spans[1].id == id);
        }
    }
    assert(m.contains_key(hc) && m[hc] == cv);
    assert(m.contains_key(hp) && m[hp] == pv);
    assert(m =~= target);
}

/// Sorted entries whose ids are exactly `a` and `b` are those two entries.
proof fn lemma_two_entries(e: Seq<BoundaryItem>, a: Seq<char>, b: Seq<char>)
    requires
        entries_sorted(e),
        a != b,
        entries_map(e).contains_key(a),
        entries_map(e).contains_key(b),
        forall|id: Seq<char>| #[trigger] entries_map(e).contains_key(id) ==> id == a || id == b,
    ensures
        e.len() == 2,
        (e[0].0 == a && e[1].0 == b) || (e[0].0 == b && e[1].0 == a),
{
    assert forall|i: int| 0 <= i < e.len() implies #[trigger] e[i].0 == a || e[i].0 == b by {
        lemma_entries_lookup(e, i);
    }
    let ia = choose|i: int| 0 <= i < e.len() && e[i].0 == a;
    let ib = choose|i: int| 0 <= i < e.len() && e[i].0 == b;
    assert(ia != ib);
    assert(e.len() >= 2);
    if e.len() > 2 {
        let (x, y, z) = (e[0].0, e[1].0, e[2].0);
        assert(seq_lt(x, y) && seq_lt(x, z) && seq_lt(y, z));
        lemma_seq_lt_irreflexive(a);
        lemma_seq_lt_irreflexive(b);
        assert(false);
    }
    lemma_seq_lt_irreflexive(a);
    lemma_seq_lt_irreflexive(b);
    assert(seq_lt(e[0].0, e[1].0));
}

/// Two passes over a nested page that differ only inside the child: the
/// parent keeps its hash, so at most the child is swapped, and only when its
/// own content hashes differently.
pub proof fn law_child_change_swaps_only_the_child(
    parent: u128,
    child: u128,
    before: Seq<char>,
    old_inner: Seq<char>,
    new_inner: Seq<char>,
    after: Seq<char>,
    old: SnapshotView,
    next: SnapshotView,
)
    requires
        parent != child,
        marker_free(before),
        marker_free(old_inner),
        marker_free(new_inner),
        marker_free(after),
        parses_to(old, nested_boundary_html(parent, child, before, old_inner, after)),
        parses_to(next, nested_boundary_html(parent, child, before, new_inner, after)),
    ensures
        reconcile_chunk(old, next) == if content_hash(old_inner) == content_hash(new_inner) {
            Seq::<char>::empty()
        } else {
            swap_template_spec(hex32(child), new_inner)
        },
{
    let hp = hex32(parent);
    let hc = hex32(child);
    lemma_hex32_injective(parent, child);
    law_nested_boundaries_are_found(parent, child, before, old_inner, after);
    law_nested_boundaries_are_found(parent, child, before, new_inner, after);
    let om = entries_map(old.entries);
    let nm = entries_map(next.entries);
    assert(om.contains_key(hc) && om.contains_key(hp));
    assert(nm.contains_key(hc) && nm.contains_key(hp));
    assert forall|id: Seq<char>| #[trigger] om.contains_key(id) implies id == hc || id == hp by {}
    assert forall|id: Seq<char>| #[trigger] nm.contains_key(id) implies id == hc || id == hp by {}
    lemma_two_entries(old.entries, hc, hp);
    lemma_two_entries(next.entries, hc, hp);
    lemma_entries_lookup(old.entries, 0);
    lemma_entries_lookup(old.entries, 1);
    lemma_entries_lookup(next.entries, 0);
    lemma_entries_lookup(next.entries, 1);
    let e = next.entries;
    // The parent's hash is the same in both passes; the child's changes with
    // its content.
    assert(om[hp].hash == nm[hp].hash);
    assert(is_changed(old, e[0]) <==> (e[0].0 == hc && content_hash(old_inner) != content_hash(new_inner)));
    assert(is_changed(old, e[1]) <==> (e[1].0 == hc && content_hash(old_inner) != content_hash(new_inner)));
    assert(e.drop_last().drop_last() =~= Seq::<BoundaryItem>::empty());
    assert(e.drop_last() =~= seq![e[0]]);
    let none = Seq::<BoundaryItem>::empty();
    let s0 = if is_changed(old, e[0]) { swap_template_spec(e[0].0, e[0].1.content) } else { seq![] };
    let s1 = if is_changed(old, e[1]) { swap_template_spec(e[1].0, e[1].1.content) } else { seq![] };
    assert(changed_swaps(old, none) == Seq::<char>::empty());
    assert(changed_swaps(old, seq![e[0]]) == changed_swaps(old, none) + s0);
    assert(changed_swaps(old, e) == changed_swaps(old, seq![e[0]]) + s1);
    assert(nm[hc].content == new_inner);
    if content_hash(old_inner) != content_hash(new_inner) {
        if e[0].0 == hc {
            assert(s0 == swap_template_spec(hc, new_inner));
            assert(s1 == Seq::<char>::empty());
        } else {
            assert(s0 == Seq::<char>::empty());
            assert(s1 == swap_template_spec(hc, new_inner));
        }
        assert(changed_swaps(old, e) =~= swap_template_spec(hc, new_inner));
    }
}

} // verus!
