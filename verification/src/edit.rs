//! What changes when the text between two points of a page changes: a page
//! `p + x + s` against `p + y + s`, where `x` and `y` open no comment, `p`
//! ends a comment and `s` starts a tag. Every marker of one page stands at
//! the same place in the other, after the edited text moved by the change
//! in length.
use vstd::prelude::*;
use crate::reconcile::{
    comment_close, end_marker, last_open_with, marker_end, marker_id, markers_from, match_all,
    match_step, next_marker, spans_of, start_marker, lemma_next_marker, MatchState, Marker, Open,
    Span, span_wf, encloses, lemma_winner_exists, eligible_child, is_first_child, normalized_from,
    boundary_ref, span_len, is_parent, parent_of, is_winner, winner_of, boundary_map, span_boundary,
};
use crate::text::{find_from, lemma_find_from, occurs_at};

verus! {

/// The characters that open an HTML comment.
pub open spec fn comment_open() -> Seq<char> {
    seq!['<', '!', '-', '-']
}

/// `x` holds no `<!--`.
pub open spec fn opens_no_comment(x: Seq<char>) -> bool {
    forall|i: int| !occurs_at(x, comment_open(), i)
}

/// The shape the two pages must have.
pub open spec fn edit_shape(p: Seq<char>, x: Seq<char>, y: Seq<char>, s: Seq<char>) -> bool {
    &&& p.len() >= 3
    &&& p.subrange(p.len() - 3, p.len() as int) == comment_close()
    &&& s.len() >= 1
    &&& s[0] == '<'
    &&& opens_no_comment(x)
    &&& opens_no_comment(y)
}

/// Where a marker ends, or text after one starts, in the first page, in the
/// second: such a position lies at the edit's start or before it, or after
/// it.
pub open spec fn shift_pos(q: int, a: int, d: int) -> int {
    if q <= a {
        q
    } else {
        q + d
    }
}

/// Where a marker starts in the first page, in the second: such a position
/// lies before the edit's start, or at its end or after it.
pub open spec fn shift_start(q: int, a: int, d: int) -> int {
    if q < a {
        q
    } else {
        q + d
    }
}

pub open spec fn shift_marker(m: Marker, a: int, d: int) -> Marker {
    Marker {
        opening: m.opening,
        start: shift_start(m.start, a, d),
        id_start: shift_start(m.id_start, a, d),
        id_end: shift_start(m.id_end, a, d),
    }
}

pub open spec fn shift_open(o: Open, a: int, d: int) -> Open {
    Open {
        id: o.id,
        marker_start: shift_start(o.marker_start, a, d),
        content_start: shift_pos(o.content_start, a, d),
    }
}

pub open spec fn shift_span(sp: Span, a: int, d: int) -> Span {
    Span {
        id: sp.id,
        marker_start: shift_start(sp.marker_start, a, d),
        content_start: shift_pos(sp.content_start, a, d),
        content_end: shift_start(sp.content_end, a, d),
        marker_end: shift_pos(sp.marker_end, a, d),
    }
}

pub open spec fn shift_markers(ms: Seq<Marker>, a: int, d: int) -> Seq<Marker> {
    ms.map_values(|m: Marker| shift_marker(m, a, d))
}

pub open spec fn shift_state(st: MatchState, a: int, d: int) -> MatchState {
    MatchState {
        stack: st.stack.map_values(|o: Open| shift_open(o, a, d)),
        spans: st.spans.map_values(|sp: Span| shift_span(sp, a, d)),
    }
}

/// A marker of the first page lies wholly before the edit or wholly after.
pub open spec fn sided(m: Marker, a: int, e: int, len: int) -> bool {
    &&& 0 <= m.start <= m.id_start <= m.id_end
    &&& m.id_end + 3 <= len
    &&& (m.id_end + 3 <= a || e <= m.start)
}

/// A marker pattern: it starts with `<!--`, ends with a space and holds no
/// `>`.
spec fn marker_pattern(pat: Seq<char>) -> bool {
    &&& pat.len() >= 5
    &&& pat.subrange(0, 4) == comment_open()
    &&& pat.last() == ' '
    &&& forall|k: int| 0 <= k < pat.len() ==> pat[k] != '>'
}

proof fn lemma_marker_patterns()
    ensures
        marker_pattern(start_marker()),
        marker_pattern(end_marker()),
        start_marker().len() == 21,
        end_marker().len() == 22,
        comment_close().len() == 3,
{
    assert(start_marker().subrange(0, 4) =~= comment_open());
    assert(end_marker().subrange(0, 4) =~= comment_open());
}

/// No marker pattern occurs across the end of `p` or inside `x` up to the
/// start of `s`.
proof fn lemma_no_straddle(p: Seq<char>, x: Seq<char>, s: Seq<char>, pat: Seq<char>, j: int)
    requires
        p.len() >= 3,
        p.subrange(p.len() - 3, p.len() as int) == comment_close(),
        s.len() >= 1,
        s[0] == '<',
        opens_no_comment(x),
        marker_pattern(pat),
        (j < p.len() && j + pat.len() > p.len() - 3) || (p.len() <= j < p.len() + x.len()),
    ensures
        !occurs_at(p + x + s, pat, j),
{
    let h = p + x + s;
    let a = p.len() as int;
    let e = a + x.len();
    let n = pat.len() as int;
    if occurs_at(h, pat, j) {
        assert(h.subrange(j, j + n) == pat);
        assert(p.subrange(a - 3, a)[2] == '>');
        assert(p.subrange(a - 3, a)[1] == '-');
        assert(p.subrange(a - 3, a)[0] == '-');
        if j < a {
            if j + n - 1 >= a - 1 {
                assert(h.subrange(j, j + n)[a - 1 - j] == h[a - 1]);
                assert(h[a - 1] == p[a - 1]);
                assert(pat[a - 1 - j] != '>');
            } else {
                assert(h.subrange(j, j + n)[n - 1] == h[j + n - 1]);
                assert(h[j + n - 1] == p[j + n - 1]);
                assert(pat[n - 1] == ' ');
            }
        } else {
            assert(pat.subrange(0, 4)[0] == '<' && pat.subrange(0, 4)[1] == '!');
            assert(pat.subrange(0, 4)[2] == '-' && pat.subrange(0, 4)[3] == '-');
            if j + 4 <= e {
                assert(x.subrange(j - a, j - a + 4) =~= comment_open()) by {
                    assert forall|k: int| 0 <= k < 4 implies x.subrange(j - a, j - a + 4)[k]
                        == comment_open()[k] by {
                        assert(h.subrange(j, j + n)[k] == h[j + k]);
                        assert(h[j + k] == x[j - a + k]);
                        assert(pat[k] == pat.subrange(0, 4)[k]);
                    }
                }
                assert(occurs_at(x, comment_open(), j - a));
            } else {
                let k = e - j;
                assert(1 <= k < 4);
                assert(h.subrange(j, j + n)[k] == h[e]);
                assert(h[e] == s[0]);
                assert(pat[k] == pat.subrange(0, 4)[k]);
            }
        }
    }
}


/// Before the edit, the two pages hold the same occurrences.
proof fn lemma_occ_left(p: Seq<char>, x: Seq<char>, y: Seq<char>, s: Seq<char>, pat: Seq<char>, j: int)
    requires
        0 <= j,
        j + pat.len() <= p.len(),
    ensures
        occurs_at(p + x + s, pat, j) == occurs_at(p + y + s, pat, j),
{
    let n = pat.len() as int;
    assert((p + x + s).subrange(j, j + n) =~= p.subrange(j, j + n));
    assert((p + y + s).subrange(j, j + n) =~= p.subrange(j, j + n));
}

/// After the edit, an occurrence in one page is one in the other, moved by
/// the change in length.
proof fn lemma_occ_right(p: Seq<char>, x: Seq<char>, y: Seq<char>, s: Seq<char>, pat: Seq<char>, j: int)
    requires
        p.len() + x.len() <= j,
    ensures
        occurs_at(p + x + s, pat, j) == occurs_at(p + y + s, pat, j + y.len() - x.len()),
{
    let n = pat.len() as int;
    let e1 = p.len() + x.len();
    let k = j - e1;
    let h1 = p + x + s;
    let h2 = p + y + s;
    let j2 = j + y.len() - x.len();
    if j + n <= h1.len() {
        assert(h1.subrange(j, j + n) =~= s.subrange(k, k + n));
        assert(h2.subrange(j2, j2 + n) =~= s.subrange(k, k + n));
    }
}

/// `find_from` gives `i` when `i` is the first occurrence from `f` on.
proof fn lemma_find_is(t: Seq<char>, pat: Seq<char>, f: int, i: int)
    requires
        0 <= f <= i,
        pat.len() > 0,
        occurs_at(t, pat, i),
        forall|j: int| f <= j < i ==> !#[trigger] occurs_at(t, pat, j),
    ensures
        find_from(t, pat, f) == Some(i),
{
    lemma_find_from(t, pat, f);
    match find_from(t, pat, f) {
        Some(k) => {
            if k < i {
                assert(!occurs_at(t, pat, k));
            } else if k > i {
                assert(!occurs_at(t, pat, i));
            }
        },
        None => {
            assert(!occurs_at(t, pat, i));
        },
    }
}

/// Searching from `f` finds what searching from `g` finds when nothing
/// occurs in between.
proof fn lemma_find_skip(t: Seq<char>, pat: Seq<char>, f: int, g: int)
    requires
        0 <= f <= g,
        pat.len() > 0,
        forall|j: int| f <= j < g ==> !#[trigger] occurs_at(t, pat, j),
    ensures
        find_from(t, pat, f) == find_from(t, pat, g),
    decreases g - f,
{
    if f < g {
        if f + pat.len() <= t.len() {
            assert(!occurs_at(t, pat, f));
            lemma_find_skip(t, pat, f + 1, g);
        } else {
            lemma_find_from(t, pat, g);
        }
    }
}

pub open spec fn opt_add(o: Option<int>, d: int) -> Option<int> {
    match o {
        Some(i) => Some(i + d),
        None => None,
    }
}

/// After the edit, searching the second page finds what searching the first
/// finds, moved.
proof fn lemma_find_right(p: Seq<char>, x: Seq<char>, y: Seq<char>, s: Seq<char>, pat: Seq<char>, f: int)
    requires
        p.len() + x.len() <= f,
        pat.len() > 0,
    ensures
        find_from(p + y + s, pat, f + y.len() - x.len()) == opt_add(
            find_from(p + x + s, pat, f),
            y.len() - x.len(),
        ),
{
    let h1 = p + x + s;
    let h2 = p + y + s;
    let d = y.len() - x.len();
    let f2 = f + d;
    lemma_find_from(h1, pat, f);
    lemma_find_from(h2, pat, f2);
    match find_from(h1, pat, f) {
        Some(i) => {
            lemma_occ_right(p, x, y, s, pat, i);
            assert forall|j: int| f2 <= j < i + d implies !#[trigger] occurs_at(h2, pat, j) by {
                lemma_occ_right(p, x, y, s, pat, j - d);
            }
            lemma_find_is(h2, pat, f2, i + d);
        },
        None => {
            if let Some(k) = find_from(h2, pat, f2) {
                lemma_occ_right(p, x, y, s, pat, k - d);
            }
        },
    }
}


/// Searching for a marker pattern from before the edit: an occurrence ahead
/// of the edit is found in both pages; otherwise both find the same one
/// after it, moved.
proof fn lemma_find_marker(p: Seq<char>, x: Seq<char>, y: Seq<char>, s: Seq<char>, pat: Seq<char>, c: int)
    requires
        edit_shape(p, x, y, s),
        marker_pattern(pat),
        0 <= c <= p.len(),
    ensures
        find_from(p + y + s, pat, c) == match find_from(p + x + s, pat, c) {
            Some(i) => Some(shift_start(i, p.len() as int, y.len() - x.len())),
            None => None,
        },
        find_from(p + x + s, pat, c) matches Some(i) ==> (i + pat.len() <= p.len() - 3 || i
            >= p.len() + x.len()),
{
    let h1 = p + x + s;
    let h2 = p + y + s;
    let a = p.len() as int;
    let e1 = a + x.len();
    let e2 = a + y.len();
    let n = pat.len() as int;
    lemma_find_from(h1, pat, c);
    let r1 = find_from(h1, pat, c);
    if r1 matches Some(i) && i < a {
        let i = r1->0;
        if i + n > a - 3 {
            lemma_no_straddle(p, x, s, pat, i);
        }
        lemma_occ_left(p, x, y, s, pat, i);
        assert forall|j: int| c <= j < i implies !#[trigger] occurs_at(h2, pat, j) by {
            lemma_occ_left(p, x, y, s, pat, j);
        }
        lemma_find_is(h2, pat, c, i);
    } else {
        if let Some(i) = r1 {
            if i < e1 {
                lemma_no_straddle(p, x, s, pat, i);
            }
        }
        assert forall|j: int| c <= j < e1 implies !#[trigger] occurs_at(h1, pat, j) by {
            if j >= a || j + n > a - 3 {
                lemma_no_straddle(p, x, s, pat, j);
            }
        }
        assert forall|j: int| c <= j < e2 implies !#[trigger] occurs_at(h2, pat, j) by {
            if j >= a || j + n > a - 3 {
                lemma_no_straddle(p, y, s, pat, j);
            } else {
                lemma_occ_left(p, x, y, s, pat, j);
            }
        }
        lemma_find_skip(h1, pat, c, e1);
        lemma_find_skip(h2, pat, c, e2);
        lemma_find_right(p, x, y, s, pat, e1);
    }
}

/// Searching for the end of a comment from ahead of the end of `p` finds
/// the same place in both pages, at the latest the end of `p`.
proof fn lemma_find_close_left(p: Seq<char>, x: Seq<char>, y: Seq<char>, s: Seq<char>, c: int)
    requires
        edit_shape(p, x, y, s),
        0 <= c <= p.len() - 3,
    ensures
        find_from(p + y + s, comment_close(), c) == find_from(p + x + s, comment_close(), c),
        find_from(p + x + s, comment_close(), c) matches Some(i) && i <= p.len() - 3,
{
    let h1 = p + x + s;
    let h2 = p + y + s;
    let a = p.len() as int;
    let cc = comment_close();
    assert(h1.subrange(a - 3, a) =~= p.subrange(a - 3, a));
    assert(occurs_at(h1, cc, a - 3));
    lemma_find_from(h1, cc, c);
    let i = find_from(h1, cc, c)->0;
    assert(i <= a - 3) by {
        if i > a - 3 {
            assert(!occurs_at(h1, cc, a - 3));
        }
    }
    lemma_occ_left(p, x, y, s, cc, i);
    assert forall|j: int| c <= j < i implies !#[trigger] occurs_at(h2, cc, j) by {
        lemma_occ_left(p, x, y, s, cc, j);
    }
    lemma_find_is(h2, cc, c, i);
}


/// The next marker from a cursor that is not inside the edit is the same
/// marker in both pages, moved when it lies after the edit.
#[verifier::rlimit(60)]
#[verifier::spinoff_prover]
proof fn lemma_next_marker_edit(p: Seq<char>, x: Seq<char>, y: Seq<char>, s: Seq<char>, c: int)
    requires
        edit_shape(p, x, y, s),
        0 <= c,
        c <= p.len() || p.len() + x.len() <= c,
    ensures
        next_marker(p + y + s, shift_pos(c, p.len() as int, y.len() - x.len())) == match next_marker(
            p + x + s,
            c,
        ) {
            Some(m) => Some(shift_marker(m, p.len() as int, y.len() - x.len())),
            None => None,
        },
        next_marker(p + x + s, c) matches Some(m) ==> sided(
            m,
            p.len() as int,
            (p.len() + x.len()) as int,
            (p + x + s).len() as int,
        ),
{
    let h1 = p + x + s;
    let h2 = p + y + s;
    let a = p.len() as int;
    let e1 = a + x.len();
    let e2 = a + y.len();
    let d = y.len() - x.len();
    let sm = start_marker();
    let em = end_marker();
    let cc = comment_close();
    lemma_marker_patterns();
    lemma_next_marker(h1, c);
    let c2 = shift_pos(c, a, d);
    if c > a {
        lemma_find_right(p, x, y, s, sm, c);
        lemma_find_right(p, x, y, s, em, c);
        if let Some(m) = next_marker(h1, c) {
            lemma_find_right(p, x, y, s, cc, m.id_start);
        } else {
            let fs = find_from(h1, sm, c);
            let fe = find_from(h1, em, c);
            if fs is Some || fe is Some {
                let pos = if fs is Some && (fe is None || fs->0 < fe->0) { fs->0 } else { fe->0 };
                let ids = if fs is Some && (fe is None || fs->0 < fe->0) { pos + 21 } else { pos + 22 };
                lemma_find_from(h1, sm, c);
                lemma_find_from(h1, em, c);
                lemma_find_right(p, x, y, s, cc, ids);
            }
        }
    } else {
        lemma_find_marker(p, x, y, s, sm, c);
        lemma_find_marker(p, x, y, s, em, c);
        let fs = find_from(h1, sm, c);
        let fe = find_from(h1, em, c);
        if fs is Some || fe is Some {
            lemma_find_from(h1, sm, c);
            lemma_find_from(h1, em, c);
            let opening = fs is Some && (fe is None || fs->0 < fe->0);
            let pos = if opening { fs->0 } else { fe->0 };
            let ids = if opening { pos + 21 } else { pos + 22 };
            if pos < a {
                assert(ids <= a - 3);
                lemma_find_close_left(p, x, y, s, ids);
            } else {
                assert(pos >= e1);
                lemma_find_right(p, x, y, s, cc, ids);
            }
        }
    }
}


/// The markers from a cursor not inside the edit are the same in both
/// pages, moved after the edit.
proof fn lemma_markers_edit(p: Seq<char>, x: Seq<char>, y: Seq<char>, s: Seq<char>, c: int)
    requires
        edit_shape(p, x, y, s),
        0 <= c,
        c <= p.len() || p.len() + x.len() <= c,
    ensures
        markers_from(p + y + s, shift_pos(c, p.len() as int, y.len() - x.len())) == shift_markers(
            markers_from(p + x + s, c),
            p.len() as int,
            y.len() - x.len(),
        ),
        forall|k: int|
            0 <= k < markers_from(p + x + s, c).len() ==> sided(
                #[trigger] markers_from(p + x + s, c)[k],
                p.len() as int,
                (p.len() + x.len()) as int,
                (p + x + s).len() as int,
            ),
    decreases (p + x + s).len() - c,
{
    let h1 = p + x + s;
    let h2 = p + y + s;
    let a = p.len() as int;
    let d = y.len() - x.len();
    let c2 = shift_pos(c, a, d);
    lemma_next_marker_edit(p, x, y, s, c);
    lemma_next_marker(h1, c);
    match next_marker(h1, c) {
        None => {
            assert(shift_markers(markers_from(h1, c), a, d) =~= Seq::<Marker>::empty());
        },
        Some(m) => {
            let m2 = shift_marker(m, a, d);
            let c_next = marker_end(m);
            assert(shift_pos(c_next, a, d) == marker_end(m2));
            lemma_markers_edit(p, x, y, s, c_next);
            let rest = markers_from(h1, c_next);
            assert(markers_from(h1, c) == seq![m] + rest);
            assert(markers_from(h2, c2) == seq![m2] + markers_from(h2, marker_end(m2)));
            assert(shift_markers(seq![m] + rest, a, d) =~= seq![m2] + shift_markers(rest, a, d));
            assert forall|k: int| 0 <= k < markers_from(h1, c).len() implies sided(
                #[trigger] markers_from(h1, c)[k],
                a,
                (p.len() + x.len()) as int,
                h1.len() as int,
            ) by {
                if k > 0 {
                    assert(markers_from(h1, c)[k] == rest[k - 1]);
                }
            }
        },
    }
}


proof fn lemma_last_open_shift(stack: Seq<Open>, id: Seq<char>, a: int, d: int)
    ensures
        last_open_with(stack.map_values(|o: Open| shift_open(o, a, d)), id) == last_open_with(stack, id),
    decreases stack.len(),
{
    let st2 = stack.map_values(|o: Open| shift_open(o, a, d));
    if stack.len() > 0 {
        assert(st2.drop_last() =~= stack.drop_last().map_values(|o: Open| shift_open(o, a, d)));
        assert(st2.last() == shift_open(stack.last(), a, d));
        lemma_last_open_shift(stack.drop_last(), id, a, d);
    }
}

/// One matching step gives the same state in both pages, moved.
proof fn lemma_step_edit(p: Seq<char>, x: Seq<char>, y: Seq<char>, s: Seq<char>, st: MatchState, m: Marker)
    requires
        edit_shape(p, x, y, s),
        sided(m, p.len() as int, (p.len() + x.len()) as int, (p + x + s).len() as int),
    ensures
        match_step(p + y + s, shift_state(st, p.len() as int, y.len() - x.len()), shift_marker(
            m,
            p.len() as int,
            y.len() - x.len(),
        )) == shift_state(match_step(p + x + s, st, m), p.len() as int, y.len() - x.len()),
{
    let h1 = p + x + s;
    let h2 = p + y + s;
    let a = p.len() as int;
    let e1 = a + x.len();
    let d = y.len() - x.len();
    let m2 = shift_marker(m, a, d);
    let st2 = shift_state(st, a, d);
    if m.id_end + 3 <= a {
        assert(h1.subrange(m.id_start, m.id_end) =~= p.subrange(m.id_start, m.id_end));
        assert(h2.subrange(m2.id_start, m2.id_end) =~= p.subrange(m.id_start, m.id_end));
    } else {
        let i = m.id_start - e1;
        let j = m.id_end - e1;
        assert(h1.subrange(m.id_start, m.id_end) =~= s.subrange(i, j));
        assert(h2.subrange(m2.id_start, m2.id_end) =~= s.subrange(i, j));
    }
    let id = marker_id(h1, m);
    assert(marker_id(h2, m2) == id);
    assert(shift_pos(marker_end(m), a, d) == marker_end(m2));
    let r1 = match_step(h1, st, m);
    if m.opening {
        let o = Open { id, marker_start: m.start, content_start: marker_end(m) };
        assert(st.stack.push(o).map_values(|q: Open| shift_open(q, a, d)) =~= st2.stack.push(
            shift_open(o, a, d),
        ));
        assert(st.spans.map_values(|q: Span| shift_span(q, a, d)) == st2.spans);
    } else {
        lemma_last_open_shift(st.stack, id, a, d);
        let k = last_open_with(st.stack, id);
        if k >= 0 {
            lemma_last_open_index(st.stack, id);
            let open = st.stack[k];
            assert(st2.stack[k] == shift_open(open, a, d));
            assert(st.stack.remove(k).map_values(|q: Open| shift_open(q, a, d)) =~= st2.stack.remove(
                k,
            ));
            let sp = Span {
                id,
                marker_start: open.marker_start,
                content_start: open.content_start,
                content_end: m.start,
                marker_end: marker_end(m),
            };
            assert(st.spans.push(sp).map_values(|q: Span| shift_span(q, a, d)) =~= st2.spans.push(
                shift_span(sp, a, d),
            ));
        }
    }
}

proof fn lemma_last_open_index(stack: Seq<Open>, id: Seq<char>)
    ensures
        -1 <= last_open_with(stack, id) < stack.len(),
    decreases stack.len(),
{
    if stack.len() > 0 {
        lemma_last_open_index(stack.drop_last(), id);
    }
}

/// Matching the moved markers gives the moved state.
proof fn lemma_match_edit(p: Seq<char>, x: Seq<char>, y: Seq<char>, s: Seq<char>, ms: Seq<Marker>, st: MatchState)
    requires
        edit_shape(p, x, y, s),
        forall|k: int|
            0 <= k < ms.len() ==> sided(
                #[trigger] ms[k],
                p.len() as int,
                (p.len() + x.len()) as int,
                (p + x + s).len() as int,
            ),
    ensures
        match_all(p + y + s, shift_markers(ms, p.len() as int, y.len() - x.len()), shift_state(
            st,
            p.len() as int,
            y.len() - x.len(),
        )) == shift_state(match_all(p + x + s, ms, st), p.len() as int, y.len() - x.len()),
    decreases ms.len(),
{
    let a = p.len() as int;
    let d = y.len() - x.len();
    if ms.len() > 0 {
        let ms2 = shift_markers(ms, a, d);
        assert(ms2[0] == shift_marker(ms[0], a, d));
        assert(ms2.drop_first() =~= shift_markers(ms.drop_first(), a, d));
        lemma_step_edit(p, x, y, s, st, ms[0]);
        assert forall|k: int| 0 <= k < ms.drop_first().len() implies sided(
            #[trigger] ms.drop_first()[k],
            a,
            (p.len() + x.len()) as int,
            (p + x + s).len() as int,
        ) by {
            assert(ms.drop_first()[k] == ms[k + 1]);
        }
        lemma_match_edit(p, x, y, s, ms.drop_first(), match_step(p + x + s, st, ms[0]));
    }
}

/// The boundaries of the second page are those of the first, moved.
pub proof fn lemma_spans_edit(p: Seq<char>, x: Seq<char>, y: Seq<char>, s: Seq<char>)
    requires
        edit_shape(p, x, y, s),
    ensures
        spans_of(p + y + s) == spans_of(p + x + s).map_values(
            |sp: Span| shift_span(sp, p.len() as int, y.len() - x.len()),
        ),
{
    let a = p.len() as int;
    let d = y.len() - x.len();
    lemma_markers_edit(p, x, y, s, 0);
    let empty = MatchState { stack: seq![], spans: seq![] };
    assert(shift_state(empty, a, d) == empty) by {
        assert(shift_state(empty, a, d).stack =~= empty.stack);
        assert(shift_state(empty, a, d).spans =~= empty.spans);
    }
    lemma_match_edit(p, x, y, s, markers_from(p + x + s, 0), empty);
}


/// A position that lies before the edit or after it.
pub open spec fn side_ok(q: int, a: int, e: int) -> bool {
    q <= a || e < q
}

/// A position where a marker starts lies before the edit's start, or at
/// its end or after it.
pub open spec fn side_start(q: int, a: int, e: int) -> bool {
    q < a || e <= q
}

pub open spec fn span_sided(sp: Span, a: int, e: int) -> bool {
    &&& side_start(sp.marker_start, a, e)
    &&& side_ok(sp.content_start, a, e)
    &&& side_start(sp.content_end, a, e)
    &&& side_ok(sp.marker_end, a, e)
}

pub open spec fn state_sided(st: MatchState, a: int, e: int, len: int) -> bool {
    &&& forall|k: int|
        0 <= k < st.stack.len() ==> side_start((#[trigger] st.stack[k]).marker_start, a, e) && side_ok(
            st.stack[k].content_start,
            a,
            e,
        ) && 0 <= st.stack[k].marker_start
    &&& forall|k: int|
        0 <= k < st.spans.len() ==> span_sided(#[trigger] st.spans[k], a, e) && 0
            <= st.spans[k].marker_start && st.spans[k].marker_end <= len
}

proof fn lemma_match_sided(html: Seq<char>, ms: Seq<Marker>, st: MatchState, a: int, e: int, len: int)
    requires
        a <= e,
        state_sided(st, a, e, len),
        forall|k: int| 0 <= k < ms.len() ==> sided(#[trigger] ms[k], a, e, len),
    ensures
        state_sided(match_all(html, ms, st), a, e, len),
    decreases ms.len(),
{
    if ms.len() > 0 {
        let m = ms[0];
        assert(sided(m, a, e, len));
        let st1 = match_step(html, st, m);
        let id = marker_id(html, m);
        if !m.opening {
            lemma_last_open_index(st.stack, id);
            let k = last_open_with(st.stack, id);
            if k >= 0 {
                assert forall|j: int| 0 <= j < st1.stack.len() implies side_start(
                    (#[trigger] st1.stack[j]).marker_start,
                    a,
                    e,
                ) && side_ok(st1.stack[j].content_start, a, e) && 0 <= st1.stack[j].marker_start by {
                    if j < k {
                        assert(st1.stack[j] == st.stack[j]);
                    } else {
                        assert(st1.stack[j] == st.stack[j + 1]);
                    }
                }
                assert(span_sided(st1.spans.last(), a, e)) by {
                    assert(st.stack[k] == st.stack[k]);
                }
            }
        }
        assert(state_sided(st1, a, e, len));
        assert forall|k: int| 0 <= k < ms.drop_first().len() implies sided(
            #[trigger] ms.drop_first()[k],
            a,
            e,
            len,
        ) by {
            assert(ms.drop_first()[k] == ms[k + 1]);
        }
        lemma_match_sided(html, ms.drop_first(), st1, a, e, len);
    }
}

/// Every position a boundary of the first page records lies before the edit
/// or after it.
proof fn lemma_spans_sided(p: Seq<char>, x: Seq<char>, y: Seq<char>, s: Seq<char>)
    requires
        edit_shape(p, x, y, s),
    ensures
        forall|k: int|
            0 <= k < spans_of(p + x + s).len() ==> span_sided(
                #[trigger] spans_of(p + x + s)[k],
                p.len() as int,
                (p.len() + x.len()) as int,
            ) && 0 <= spans_of(p + x + s)[k].marker_start && spans_of(p + x + s)[k].marker_end <= (p + x
                + s).len(),
{
    lemma_markers_edit(p, x, y, s, 0);
    let empty = MatchState { stack: seq![], spans: seq![] };
    lemma_match_sided(
        p + x + s,
        markers_from(p + x + s, 0),
        empty,
        p.len() as int,
        (p.len() + x.len()) as int,
        (p + x + s).len() as int,
    );
}

/// Moving the ends of markers keeps their order.
proof fn lemma_order_ends(u: int, v: int, a: int, e1: int, d: int)
    requires
        a <= e1,
        a <= e1 + d,
        side_ok(u, a, e1),
        side_ok(v, a, e1),
    ensures
        (u <= v) == (shift_pos(u, a, d) <= shift_pos(v, a, d)),
        (u < v) == (shift_pos(u, a, d) < shift_pos(v, a, d)),
        (u == v) == (shift_pos(u, a, d) == shift_pos(v, a, d)),
{
}

/// Moving the starts of markers keeps their order.
proof fn lemma_order_starts(u: int, v: int, a: int, e1: int, d: int)
    requires
        a <= e1,
        a <= e1 + d,
        side_start(u, a, e1),
        side_start(v, a, e1),
    ensures
        (u <= v) == (shift_start(u, a, d) <= shift_start(v, a, d)),
        (u < v) == (shift_start(u, a, d) < shift_start(v, a, d)),
        (u == v) == (shift_start(u, a, d) == shift_start(v, a, d)),
{
}

/// Moving keeps whether a marker's end comes no later than a marker's
/// start.
proof fn lemma_order_end_start(u: int, v: int, a: int, e1: int, d: int)
    requires
        a <= e1,
        a <= e1 + d,
        side_ok(u, a, e1),
        side_start(v, a, e1),
    ensures
        (u <= v) == (shift_pos(u, a, d) <= shift_start(v, a, d)),
{
}

/// Moving keeps whether a marker's start comes before a marker's end.
proof fn lemma_order_start_end(u: int, v: int, a: int, e1: int, d: int)
    requires
        a <= e1,
        a <= e1 + d,
        side_start(u, a, e1),
        side_ok(v, a, e1),
    ensures
        (u < v) == (shift_start(u, a, d) < shift_pos(v, a, d)),
{
}


/// Every boundary is well formed, and any two are apart or one lies within
/// the other's content.
pub open spec fn boundaries_nest(spans: Seq<Span>) -> bool {
    &&& forall|i: int| 0 <= i < spans.len() ==> span_wf(#[trigger] spans[i])
    &&& forall|i: int, j: int|
        0 <= i < spans.len() && 0 <= j < spans.len() && i != j ==> nest_pair(
            #[trigger] spans[i],
            #[trigger] spans[j],
        )
}

/// Two boundaries are apart, or one lies within the other's content.
pub open spec fn nest_pair(u: Span, v: Span) -> bool {
    ||| u.marker_end <= v.marker_start
    ||| v.marker_end <= u.marker_start
    ||| (u.content_start <= v.marker_start && v.marker_end <= u.content_end)
    ||| (v.content_start <= u.marker_start && u.marker_end <= v.content_end)
}

pub open spec fn shift_spans(spans: Seq<Span>, a: int, d: int) -> Seq<Span> {
    spans.map_values(|sp: Span| shift_span(sp, a, d))
}

/// Moving every position of two boundaries keeps every comparison between
/// them.
proof fn lemma_shift_pair(u: Span, v: Span, a: int, e1: int, d: int)
    requires
        a <= e1,
        a <= e1 + d,
        span_sided(u, a, e1),
        span_sided(v, a, e1),
    ensures
        (u.marker_start < v.marker_start) == (shift_span(u, a, d).marker_start < shift_span(v, a, d).marker_start),
        (u.marker_start <= v.marker_start) == (shift_span(u, a, d).marker_start <= shift_span(v, a, d).marker_start),
        (u.marker_end < v.marker_end) == (shift_span(u, a, d).marker_end < shift_span(v, a, d).marker_end),
        (u.marker_end <= v.marker_start) == (shift_span(u, a, d).marker_end <= shift_span(v, a, d).marker_start),
        (u.content_start <= v.marker_start) == (shift_span(u, a, d).content_start <= shift_span(v, a, d).marker_start),
        (v.marker_end <= u.content_end) == (shift_span(v, a, d).marker_end <= shift_span(u, a, d).content_end),
        (u.marker_start == v.marker_start) == (shift_span(u, a, d).marker_start == shift_span(v, a, d).marker_start),
        span_wf(u) == span_wf(shift_span(u, a, d)),
{
    lemma_order_starts(u.marker_start, v.marker_start, a, e1, d);
    lemma_order_ends(u.marker_end, v.marker_end, a, e1, d);
    lemma_order_end_start(u.marker_end, v.marker_start, a, e1, d);
    lemma_order_end_start(u.content_start, v.marker_start, a, e1, d);
    lemma_order_end_start(v.marker_end, u.content_end, a, e1, d);
    lemma_order_start_end(u.marker_start, u.content_start, a, e1, d);
    lemma_order_end_start(u.content_start, u.content_end, a, e1, d);
    lemma_order_start_end(u.content_end, u.marker_end, a, e1, d);
}

/// Each id's winning boundary is the same one in both pages.
proof fn lemma_winner_shift(spans: Seq<Span>, a: int, e1: int, d: int, k: int)
    requires
        a <= e1,
        a <= e1 + d,
        0 <= k < spans.len(),
        boundaries_nest(spans),
        forall|q: int| 0 <= q < spans.len() ==> span_sided(#[trigger] spans[q], a, e1),
    ensures
        winner_of(shift_spans(spans, a, d), spans[k].id) == winner_of(spans, spans[k].id),
        is_winner(spans, winner_of(spans, spans[k].id)),
        spans[winner_of(spans, spans[k].id)].id == spans[k].id,
{
    let s2 = shift_spans(spans, a, d);
    let id = spans[k].id;
    assert forall|i: int| is_winner(s2, i) == is_winner(spans, i) by {
        if 0 <= i < spans.len() {
            if is_winner(spans, i) {
                assert forall|j: int| 0 <= j < s2.len() && (#[trigger] s2[j]).id == s2[i].id implies s2[j].marker_start <= s2[i].marker_start by {
                    lemma_shift_pair(spans[j], spans[i], a, e1, d);
                    assert(spans[j].id == spans[i].id);
                }
            }
            if is_winner(s2, i) {
                assert forall|j: int| 0 <= j < spans.len() && (#[trigger] spans[j]).id == spans[i].id implies spans[j].marker_start <= spans[i].marker_start by {
                    lemma_shift_pair(spans[j], spans[i], a, e1, d);
                    assert(s2[j].id == s2[i].id);
                }
            }
        }
    }
    lemma_winner_exists(spans, k);
    let w1 = winner_of(spans, id);
    assert(is_winner(spans, w1) && spans[w1].id == id);
    lemma_winner_exists(s2, k);
    assert(s2[k].id == id);
    let w2 = winner_of(s2, id);
    assert(is_winner(s2, w2) && s2[w2].id == id);
    assert(is_winner(spans, w2));
    assert(spans[w2].id == id);
    if w1 != w2 {
        assert(spans[w1].marker_start <= spans[w2].marker_start);
        assert(spans[w2].marker_start <= spans[w1].marker_start);
        assert(nest_pair(spans[w1], spans[w2]));
        assert(span_wf(spans[w1]) && span_wf(spans[w2]));
    }
}

/// The parent of a boundary is the same in both pages when boundaries nest.
proof fn lemma_parent_shift(spans: Seq<Span>, a: int, e1: int, d: int, k: int)
    requires
        a <= e1,
        a <= e1 + d,
        0 <= k < spans.len(),
        boundaries_nest(spans),
        forall|q: int| 0 <= q < spans.len() ==> span_sided(#[trigger] spans[q], a, e1),
    ensures
        parent_of(shift_spans(spans, a, d), shift_spans(spans, a, d)[k]) == parent_of(spans, spans[k]),
{
    let s2 = shift_spans(spans, a, d);
    let t = spans[k];
    let t2 = s2[k];
    assert(t2 == shift_span(t, a, d));
    assert forall|i: int| 0 <= i < spans.len() implies #[trigger] encloses(s2[i], t2) == encloses(spans[i], t) by {
        lemma_shift_pair(spans[i], t, a, e1, d);
        lemma_shift_pair(t, spans[i], a, e1, d);
    }
    assert forall|i: int| is_parent(s2, t2, i) == is_parent(spans, t, i) by {
        if 0 <= i < spans.len() && encloses(spans[i], t) {
            assert forall|j: int| 0 <= j < spans.len() && encloses(spans[j], t) implies ((span_len(
                s2[i],
            ) < span_len(s2[j]) || (span_len(s2[i]) == span_len(s2[j]) && s2[i].marker_start
                <= s2[j].marker_start)) == (span_len(spans[i]) < span_len(spans[j]) || (span_len(
                spans[i],
            ) == span_len(spans[j]) && spans[i].marker_start <= spans[j].marker_start))) by {
                let u = spans[i];
                let v = spans[j];
                lemma_shift_pair(u, v, a, e1, d);
                lemma_shift_pair(v, u, a, e1, d);
                lemma_shift_pair(t, u, a, e1, d);
                lemma_shift_pair(u, t, a, e1, d);
                assert(span_wf(u) && span_wf(v) && span_wf(t));
                if i != j {
                    assert(nest_pair(u, v));
                }
            }
            assert forall|j: int| 0 <= j < s2.len() && encloses(#[trigger] s2[j], t2) implies encloses(spans[j], t) by {}
        }
    }
    let f1 = |i: int| is_parent(spans, t, i);
    let f2 = |i: int| is_parent(s2, t2, i);
    assert(f1 =~= f2);
}


/// Some boundary inside `w`, from `cur` on, holds the whole edit.
pub open spec fn edit_covered(spans: Seq<Span>, w: Span, cur: int, a: int, e1: int) -> bool {
    exists|t: int|
        0 <= t < spans.len() && eligible_child(w, #[trigger] spans[t], cur) && spans[t].marker_start
            < a && e1 < spans[t].marker_end
}

/// The eligible children of `w` from `cur` among the first `n` boundaries
/// start no earlier than the one at `i`.
pub open spec fn least_eligible(spans: Seq<Span>, w: Span, cur: int, n: int, i: int) -> bool {
    &&& 0 <= i < n
    &&& eligible_child(w, spans[i], cur)
    &&& forall|j: int|
        0 <= j < n && eligible_child(w, #[trigger] spans[j], cur) ==> spans[i].marker_start
            <= spans[j].marker_start
}

/// Among the first `n` boundaries, some eligible child starts first, when
/// one is eligible.
proof fn lemma_min_eligible(spans: Seq<Span>, w: Span, cur: int, n: int, t: int)
    requires
        0 <= t < n <= spans.len(),
        eligible_child(w, spans[t], cur),
    ensures
        exists|i: int| least_eligible(spans, w, cur, n, i),
    decreases n,
{
    let m = n - 1;
    let has_earlier = t < m || exists|k: int| 0 <= k < m && eligible_child(w, #[trigger] spans[k], cur);
    if has_earlier {
        let t0 = if t < m { t } else { choose|k: int| 0 <= k < m && eligible_child(w, #[trigger] spans[k], cur) };
        lemma_min_eligible(spans, w, cur, m, t0);
        let i = choose|i: int| least_eligible(spans, w, cur, m, i);
        if eligible_child(w, spans[m], cur) && spans[m].marker_start < spans[i].marker_start {
            assert forall|j: int| 0 <= j < n && eligible_child(w, #[trigger] spans[j], cur) implies spans[m].marker_start <= spans[j].marker_start by {
                if j < m {
                    assert(spans[i].marker_start <= spans[j].marker_start);
                }
            }
            assert(least_eligible(spans, w, cur, n, m));
        } else {
            assert forall|j: int| 0 <= j < n && eligible_child(w, #[trigger] spans[j], cur) implies spans[i].marker_start <= spans[j].marker_start by {
                if j < m {
                    assert(spans[i].marker_start <= spans[j].marker_start);
                }
            }
            assert(least_eligible(spans, w, cur, n, i));
        }
    } else {
        assert forall|j: int| 0 <= j < n && eligible_child(w, #[trigger] spans[j], cur) implies spans[m].marker_start <= spans[j].marker_start by {
            if j < m {
                assert(eligible_child(w, spans[j], cur));
            }
        }
        assert(least_eligible(spans, w, cur, n, m));
    }
}

/// A boundary is a first child of `w` from `cur` in one page exactly when it
/// is one in the other.
proof fn lemma_first_child_shift(spans: Seq<Span>, w: Span, cur: int, a: int, e1: int, d: int, i: int)
    requires
        a <= e1,
        a <= e1 + d,
        span_sided(w, a, e1),
        side_ok(cur, a, e1),
        forall|q: int| 0 <= q < spans.len() ==> span_sided(#[trigger] spans[q], a, e1),
    ensures
        is_first_child(shift_spans(spans, a, d), shift_span(w, a, d), shift_pos(cur, a, d), i)
            == is_first_child(spans, w, cur, i),
{
    let s2 = shift_spans(spans, a, d);
    let w2 = shift_span(w, a, d);
    let cur2 = shift_pos(cur, a, d);
    assert forall|j: int| 0 <= j < spans.len() implies #[trigger] eligible_child(w2, s2[j], cur2)
        == eligible_child(w, spans[j], cur) by {
        lemma_shift_pair(w, spans[j], a, e1, d);
        lemma_shift_pair(spans[j], w, a, e1, d);
        lemma_order_end_start(cur, spans[j].marker_start, a, e1, d);
        assert(s2[j] == shift_span(spans[j], a, d));
    }
    if 0 <= i < spans.len() {
        assert forall|j: int| 0 <= j < spans.len() implies (#[trigger] s2[j].marker_start >= s2[i].marker_start) == (spans[j].marker_start >= spans[i].marker_start) by {
            lemma_shift_pair(spans[i], spans[j], a, e1, d);
        }
        if is_first_child(spans, w, cur, i) {
            assert forall|j: int| 0 <= j < s2.len() && eligible_child(w2, #[trigger] s2[j], cur2) implies s2[i].marker_start <= s2[j].marker_start by {
                assert(eligible_child(w, spans[j], cur));
                assert(s2[j].marker_start >= s2[i].marker_start);
            }
        }
        if is_first_child(s2, w2, cur2, i) {
            assert forall|j: int| 0 <= j < spans.len() && eligible_child(w, #[trigger] spans[j], cur) implies spans[i].marker_start <= spans[j].marker_start by {
                assert(eligible_child(w2, s2[j], cur2));
                assert(s2[j].marker_start >= s2[i].marker_start);
            }
        }
    }
}

/// The text of a boundary from `cur` on, with nested boundaries as
/// references, is the same in both pages when the edit is not in it, or
/// lies inside a nested boundary.
#[verifier::rlimit(80)]
#[verifier::spinoff_prover]
proof fn lemma_normalized_shift(
    p: Seq<char>,
    x: Seq<char>,
    y: Seq<char>,
    s: Seq<char>,
    spans: Seq<Span>,
    w: Span,
    cur: int,
)
    requires
        edit_shape(p, x, y, s),
        spans == spans_of(p + x + s),
        boundaries_nest(spans),
        span_sided(w, p.len() as int, (p.len() + x.len()) as int),
        span_wf(w),
        0 <= w.marker_start,
        w.marker_end <= (p + x + s).len(),
        side_ok(cur, p.len() as int, (p.len() + x.len()) as int),
        w.content_start <= cur <= w.content_end,
        !(cur <= p.len() && p.len() + x.len() <= w.content_end) || edit_covered(
            spans,
            w,
            cur,
            p.len() as int,
            (p.len() + x.len()) as int,
        ),
    ensures
        normalized_from(
            p + y + s,
            shift_spans(spans, p.len() as int, y.len() - x.len()),
            shift_span(w, p.len() as int, y.len() - x.len()),
            shift_pos(cur, p.len() as int, y.len() - x.len()),
        ) == normalized_from(p + x + s, spans, w, cur),
    decreases w.content_end - cur,
{
    let h1 = p + x + s;
    let h2 = p + y + s;
    let a = p.len() as int;
    let e1 = a + x.len();
    let d = y.len() - x.len();
    let s2 = shift_spans(spans, a, d);
    let w2 = shift_span(w, a, d);
    let cur2 = shift_pos(cur, a, d);
    lemma_spans_sided(p, x, y, s);
    lemma_order_end_start(cur, w.content_end, a, e1, d);
    assert forall|i: int| #[trigger] is_first_child(s2, w2, cur2, i) == is_first_child(spans, w, cur, i) by {
        lemma_first_child_shift(spans, w, cur, a, e1, d, i);
    }
    if exists|i: int| is_first_child(spans, w, cur, i) {
        let i1 = choose|i: int| is_first_child(spans, w, cur, i);
        assert(is_first_child(s2, w2, cur2, i1));
        let i2 = choose|i: int| is_first_child(s2, w2, cur2, i);
        assert(is_first_child(spans, w, cur, i2));
        if i1 != i2 {
            assert(spans[i1].marker_start <= spans[i2].marker_start);
            assert(spans[i2].marker_start <= spans[i1].marker_start);
            assert(nest_pair(spans[i1], spans[i2]));
            assert(span_wf(spans[i1]) && span_wf(spans[i2]));
        }
        let c = spans[i1];
        let c2 = s2[i1];
        assert(c2 == shift_span(c, a, d));
        assert(span_sided(c, a, e1) && 0 <= c.marker_start && c.marker_end <= h1.len());
        // The text up to the child is the same.
        lemma_order_end_start(cur, c.marker_start, a, e1, d);
        if cur <= a && e1 <= c.marker_start {
            let t = choose|t: int|
                0 <= t < spans.len() && eligible_child(w, #[trigger] spans[t], cur)
                    && spans[t].marker_start < a && e1 < spans[t].marker_end;
            assert(c.marker_start <= spans[t].marker_start);
        }
        lemma_text_shift(p, x, y, s, cur, c.marker_start);
        // The rest, from the child's end.
        let nxt = c.marker_end;
        if nxt <= a && e1 <= w.content_end {
            let t = choose|t: int|
                0 <= t < spans.len() && eligible_child(w, #[trigger] spans[t], cur)
                    && spans[t].marker_start < a && e1 < spans[t].marker_end;
            assert(c.marker_start <= spans[t].marker_start);
            if t != i1 {
                assert(nest_pair(c, spans[t]));
                assert(span_wf(spans[t]));
                assert(eligible_child(w, spans[t], nxt));
            }
            assert(edit_covered(spans, w, nxt, a, e1));
        }
        lemma_normalized_shift(p, x, y, s, spans, w, nxt);
        assert(shift_pos(nxt, a, d) == c2.marker_end);
        assert(normalized_from(h2, s2, w2, cur2) == h2.subrange(cur2, c2.marker_start) + boundary_ref(
            c2.id,
        ) + normalized_from(h2, s2, w2, c2.marker_end));
    } else {
        assert(!exists|i: int| is_first_child(s2, w2, cur2, i));
        if cur <= a && e1 <= w.content_end {
            let t = choose|t: int|
                0 <= t < spans.len() && eligible_child(w, #[trigger] spans[t], cur)
                    && spans[t].marker_start < a && e1 < spans[t].marker_end;
            lemma_min_eligible(spans, w, cur, spans.len() as int, t);
            let i = choose|i: int| least_eligible(spans, w, cur, spans.len() as int, i);
            assert(is_first_child(spans, w, cur, i));
        }
        lemma_text_shift(p, x, y, s, cur, w.content_end);
    }
}

/// Text between two positions on one side of the edit is the same in both
/// pages.
proof fn lemma_text_shift(p: Seq<char>, x: Seq<char>, y: Seq<char>, s: Seq<char>, u: int, v: int)
    requires
        0 <= u <= v <= (p + x + s).len(),
        (v < p.len()) || (p.len() + x.len() < u),
    ensures
        (p + y + s).subrange(
            shift_pos(u, p.len() as int, y.len() - x.len()),
            shift_start(v, p.len() as int, y.len() - x.len()),
        ) == (p + x + s).subrange(u, v),
{
    let a = p.len() as int;
    let e1 = a + x.len();
    let d = y.len() - x.len();
    if v < a {
        assert((p + y + s).subrange(u, v) =~= (p + x + s).subrange(u, v));
    } else {
        assert((p + y + s).subrange(u + d, v + d) =~= (p + x + s).subrange(u, v));
    }
}


/// The boundaries of the page `p + x + s` whose boundary `child` holds
/// exactly `x`, against the page `p + y + s`.
pub open spec fn child_holds(p: Seq<char>, x: Seq<char>, s: Seq<char>, child: Seq<char>) -> bool {
    exists|i: int|
        0 <= i < spans_of(p + x + s).len() && (#[trigger] spans_of(p + x + s)[i]).id == child
            && spans_of(p + x + s)[i].content_start == p.len() && spans_of(p + x + s)[i].content_end
            == p.len() + x.len()
}

/// Replacing the content `x` of the boundary `child` by `y`, in a page whose
/// boundaries nest, keeps every boundary id and every parent, and the hash
/// of every boundary but `child`: a change inside a child never changes the
/// hash of its parent or of any other ancestor. (`p` ends a comment, as a
/// boundary's opening marker does; `s` starts a tag, as its closing marker
/// does; `x` and `y` open no comment, and either may be empty.)
pub proof fn law_child_edit_keeps_the_other_boundaries(
    p: Seq<char>,
    x: Seq<char>,
    y: Seq<char>,
    s: Seq<char>,
    child: Seq<char>,
)
    requires
        edit_shape(p, x, y, s),
        boundaries_nest(spans_of(p + x + s)),
        child_holds(p, x, s, child),
    ensures
        boundary_map(p + y + s).dom() == boundary_map(p + x + s).dom(),
        forall|id: Seq<char>|
            #[trigger] boundary_map(p + x + s).contains_key(id) ==> boundary_map(p + y + s)[id].parent
                == boundary_map(p + x + s)[id].parent,
        forall|id: Seq<char>|
            #[trigger] boundary_map(p + x + s).contains_key(id) && id != child ==> boundary_map(
                p + y + s,
            )[id].hash == boundary_map(p + x + s)[id].hash,
{
    let h1 = p + x + s;
    let h2 = p + y + s;
    let a = p.len() as int;
    let e1 = a + x.len();
    let d = y.len() - x.len();
    let spans = spans_of(h1);
    lemma_spans_edit(p, x, y, s);
    lemma_spans_sided(p, x, y, s);
    let s2 = shift_spans(spans, a, d);
    assert(spans_of(h2) =~= s2);
    let ci = choose|i: int|
        0 <= i < spans_of(p + x + s).len() && (#[trigger] spans_of(p + x + s)[i]).id == child
            && spans_of(p + x + s)[i].content_start == p.len() && spans_of(p + x + s)[i].content_end
            == p.len() + x.len();
    let cs = spans[ci];
    assert forall|id: Seq<char>| #[trigger] boundary_map(h2).contains_key(id) == boundary_map(h1).contains_key(id) by {
        if boundary_map(h1).contains_key(id) {
            let i = choose|i: int| 0 <= i < spans.len() && spans[i].id == id;
            assert(s2[i].id == id);
        }
        if boundary_map(h2).contains_key(id) {
            let i = choose|i: int| 0 <= i < s2.len() && s2[i].id == id;
            assert(spans[i].id == id);
        }
    }
    assert(boundary_map(h2).dom() =~= boundary_map(h1).dom());
    assert forall|id: Seq<char>| #[trigger] boundary_map(h1).contains_key(id) implies boundary_map(h2)[id].parent
        == boundary_map(h1)[id].parent && (id != child ==> boundary_map(h2)[id].hash
        == boundary_map(h1)[id].hash) by {
        let k = choose|i: int| 0 <= i < spans.len() && spans[i].id == id;
        lemma_winner_shift(spans, a, e1, d, k);
        let w = winner_of(spans, id);
        assert(winner_of(s2, id) == w);
        lemma_parent_shift(spans, a, e1, d, w);
        assert(boundary_map(h1)[id] == span_boundary(h1, spans, spans[w]));
        assert(boundary_map(h2)[id] == span_boundary(h2, s2, s2[w]));
        if id != child {
            let ws = spans[w];
            assert(span_wf(ws) && span_wf(cs));
            assert(span_sided(ws, a, e1) && 0 <= ws.marker_start && ws.marker_end <= h1.len());
            if ws.content_start <= a && e1 <= ws.content_end {
                assert(w != ci);
                assert(nest_pair(ws, cs));
                assert(eligible_child(ws, cs, ws.content_start));
                assert(edit_covered(spans, ws, ws.content_start, a, e1));
            }
            lemma_normalized_shift(p, x, y, s, spans, ws, ws.content_start);
            assert(s2[w] == shift_span(ws, a, d));
        }
    }
}

} // verus!
