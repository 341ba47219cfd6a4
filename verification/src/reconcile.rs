//! Boundary snapshots of rendered HTML and the swap instructions that turn
//! one render pass into the next.
//!
//! A boundary is a region of the document between the marker comments
//! `<!--topcoat-boundary ID-->` and `<!--/topcoat-boundary ID-->`. Parsing a
//! page finds every boundary, hashes its content with nested boundaries
//! replaced by references, and records its innermost enclosing boundary.
//! Reconciling two snapshots yields `<template data-topcoat-swap>` chunks for
//! the boundaries whose hash changed, or a swap of the whole root when the
//! top-level structure changed.
use vstd::prelude::*;
use vstd::std_specs::hash::DefaultHasherAdditionalSpecFns;
use vstd::string::StringSliceAdditionalSpecFns;
use std::collections::hash_map::DefaultHasher;
use std::hash::Hasher;
use crate::text::{occurs_at, find_from, lemma_find_from, find_from_exec, copy_range, push_range, push_all, chars_of, string_of, chars_eq, seq_lt, chars_lt};

verus! {

/// The script sent after the first chunk of a streamed page. It applies each
/// `<template data-topcoat-swap>` and `<template data-topcoat-redirect>`
/// instruction as it arrives.
pub const SWAP_SCRIPT: &'static str = "<script data-topcoat-stream>(function(){function comments(){var w=document.createTreeWalker(document,NodeFilter.SHOW_COMMENT),m=new Map(),n;while(n=w.nextNode()){var t=n.data;if(t.startsWith('topcoat-boundary '))m.set('s:'+t.slice(17),n);else if(t.startsWith('/topcoat-boundary '))m.set('e:'+t.slice(18),n)}return m}function apply(t){var r=t.dataset.topcoatRedirect;if(r){location.assign(r);t.remove();return}var id=t.dataset.topcoatSwap;if(!id)return;if(id==='root'){var d=new DOMParser().parseFromString(t.innerHTML,'text/html');document.documentElement.innerHTML=d.documentElement.innerHTML;globalThis.__topcoatScan?.(document.body,null,null);return}var m=comments(),s=m.get('s:'+id),e=m.get('e:'+id);if(!s||!e)return;for(var n=s.nextSibling;n&&n!==e;){var x=n.nextSibling;n.remove();n=x}e.before(t.content.cloneNode(true));globalThis.__topcoatScan?.(s.parentNode,s,e);t.remove()}new MutationObserver(function(rs){for(var r of rs)for(var n of r.addedNodes){if(n.nodeType===1&&n.matches('template[data-topcoat-swap],template[data-topcoat-redirect]'))apply(n);if(n.querySelectorAll)n.querySelectorAll('template[data-topcoat-swap],template[data-topcoat-redirect]').forEach(apply)}}).observe(document.documentElement,{childList:true,subtree:true});document.querySelectorAll('template[data-topcoat-swap],template[data-topcoat-redirect]').forEach(apply)})();</script>";

// ---------------------------------------------------------------------------
// Markers
// ---------------------------------------------------------------------------

/// `<!--topcoat-boundary `, which opens a boundary.
pub open spec fn start_marker() -> Seq<char> {
    seq!['<', '!', '-', '-', 't', 'o', 'p', 'c', 'o', 'a', 't', '-', 'b', 'o', 'u', 'n', 'd', 'a', 'r', 'y', ' ']
}

/// `<!--/topcoat-boundary `, which closes a boundary.
pub open spec fn end_marker() -> Seq<char> {
    seq!['<', '!', '-', '-', '/', 't', 'o', 'p', 'c', 'o', 'a', 't', '-', 'b', 'o', 'u', 'n', 'd', 'a', 'r', 'y', ' ']
}

/// `-->`, which ends a marker comment after its id.
pub open spec fn comment_close() -> Seq<char> {
    seq!['-', '-', '>']
}

/// `<!--topcoat-boundary-ref `, which stands for a nested boundary when its
/// parent is hashed.
pub open spec fn ref_prefix() -> Seq<char> {
    seq!['<', '!', '-', '-', 't', 'o', 'p', 'c', 'o', 'a', 't', '-', 'b', 'o', 'u', 'n', 'd', 'a', 'r', 'y', '-', 'r', 'e', 'f', ' ']
}

/// The reference that replaces a nested boundary with id `id`.
pub open spec fn boundary_ref(id: Seq<char>) -> Seq<char> {
    ref_prefix() + id + comment_close()
}

fn start_marker_exec() -> (r: Vec<char>)
    ensures
        r@ == start_marker(),
{
    let r = vec!['<', '!', '-', '-', 't', 'o', 'p', 'c', 'o', 'a', 't', '-', 'b', 'o', 'u', 'n', 'd', 'a', 'r', 'y', ' '];
    assert(r@ =~= start_marker());
    r
}

fn end_marker_exec() -> (r: Vec<char>)
    ensures
        r@ == end_marker(),
{
    let r = vec!['<', '!', '-', '-', '/', 't', 'o', 'p', 'c', 'o', 'a', 't', '-', 'b', 'o', 'u', 'n', 'd', 'a', 'r', 'y', ' '];
    assert(r@ =~= end_marker());
    r
}

fn comment_close_exec() -> (r: Vec<char>)
    ensures
        r@ == comment_close(),
{
    let r = vec!['-', '-', '>'];
    assert(r@ =~= comment_close());
    r
}

fn ref_prefix_exec() -> (r: Vec<char>)
    ensures
        r@ == ref_prefix(),
{
    let r = vec!['<', '!', '-', '-', 't', 'o', 'p', 'c', 'o', 'a', 't', '-', 'b', 'o', 'u', 'n', 'd', 'a', 'r', 'y', '-', 'r', 'e', 'f', ' '];
    assert(r@ =~= ref_prefix());
    r
}

/// One marker comment found in the page: whether it opens or closes a
/// boundary, where it starts, and where its id starts and ends (the id is
/// followed by `-->`).
pub struct Marker {
    pub opening: bool,
    pub start: int,
    pub id_start: int,
    pub id_end: int,
}

/// The next marker at or after `cursor`: the earlier of the next opening and
/// the next closing marker, provided a `-->` follows it.
pub open spec fn next_marker(html: Seq<char>, cursor: int) -> Option<Marker> {
    let s = find_from(html, start_marker(), cursor);
    let e = find_from(html, end_marker(), cursor);
    let picked: Option<(int, bool)> = match (s, e) {
        (Some(a), Some(b)) => if a < b {
            Some((a, true))
        } else {
            Some((b, false))
        },
        (Some(a), None) => Some((a, true)),
        (None, Some(b)) => Some((b, false)),
        (None, None) => None,
    };
    match picked {
        None => None,
        Some((pos, opening)) => {
            let id_start = pos + if opening {
                start_marker().len() as int
            } else {
                end_marker().len() as int
            };
            match find_from(html, comment_close(), id_start) {
                None => None,
                Some(id_end) => Some(Marker { opening, start: pos, id_start, id_end }),
            }
        },
    }
}

/// Where the marker comment ends.
pub open spec fn marker_end(m: Marker) -> int {
    m.id_end + 3
}

pub proof fn lemma_next_marker(html: Seq<char>, cursor: int)
    requires
        0 <= cursor,
    ensures
        next_marker(html, cursor) matches Some(m) ==> {
            &&& cursor <= m.start
            &&& m.opening ==> occurs_at(html, start_marker(), m.start) && m.id_start == m.start + 21
            &&& !m.opening ==> occurs_at(html, end_marker(), m.start) && m.id_start == m.start + 22
            &&& m.id_start <= m.id_end
            &&& occurs_at(html, comment_close(), m.id_end)
            &&& marker_end(m) <= html.len()
        },
{
    lemma_find_from(html, start_marker(), cursor);
    lemma_find_from(html, end_marker(), cursor);
    if let Some(m) = next_marker(html, cursor) {
        lemma_find_from(html, comment_close(), m.id_start);
    }
}

/// The markers of the page from `cursor` on, in order; scanning stops at the
/// first marker without a closing `-->`.
pub open spec fn markers_from(html: Seq<char>, cursor: int) -> Seq<Marker>
    decreases html.len() - cursor,
{
    if cursor < 0 {
        seq![]
    } else {
        match next_marker(html, cursor) {
            None => seq![],
            Some(m) => {
                proof {
                    lemma_next_marker(html, cursor);
                }
                seq![m] + markers_from(html, marker_end(m))
            },
        }
    }
}

// ---------------------------------------------------------------------------
// Matching markers into spans
// ---------------------------------------------------------------------------

/// An opening marker still waiting for its closing marker.
pub struct Open {
    pub id: Seq<char>,
    pub marker_start: int,
    pub content_start: int,
}

/// A matched boundary: from the start of its opening marker to the end of its
/// closing marker, with its content in between.
pub struct Span {
    pub id: Seq<char>,
    pub marker_start: int,
    pub content_start: int,
    pub content_end: int,
    pub marker_end: int,
}

/// The open markers and the spans found so far.
pub struct MatchState {
    pub stack: Seq<Open>,
    pub spans: Seq<Span>,
}

/// The index of the innermost open marker with id `id`, or -1.
pub open spec fn last_open_with(stack: Seq<Open>, id: Seq<char>) -> int
    decreases stack.len(),
{
    if stack.len() == 0 {
        -1
    } else if stack.last().id == id {
        stack.len() - 1
    } else {
        last_open_with(stack.drop_last(), id)
    }
}

/// The id that a marker carries.
pub open spec fn marker_id(html: Seq<char>, m: Marker) -> Seq<char> {
    html.subrange(m.id_start, m.id_end)
}

/// One marker applied to the matching state: an opening marker is pushed; a
/// closing marker closes the innermost open marker with the same id (which
/// leaves the stack, wherever it stands) or is ignored when there is none.
pub open spec fn match_step(html: Seq<char>, st: MatchState, m: Marker) -> MatchState {
    let id = marker_id(html, m);
    if m.opening {
        MatchState {
            stack: st.stack.push(Open { id, marker_start: m.start, content_start: marker_end(m) }),
            spans: st.spans,
        }
    } else {
        let k = last_open_with(st.stack, id);
        if k < 0 {
            st
        } else {
            let open = st.stack[k];
            MatchState {
                stack: st.stack.remove(k),
                spans: st.spans.push(
                    Span {
                        id,
                        marker_start: open.marker_start,
                        content_start: open.content_start,
                        content_end: m.start,
                        marker_end: marker_end(m),
                    },
                ),
            }
        }
    }
}

/// The markers `ms` applied in order.
pub open spec fn match_all(html: Seq<char>, ms: Seq<Marker>, st: MatchState) -> MatchState
    decreases ms.len(),
{
    if ms.len() == 0 {
        st
    } else {
        match_all(html, ms.drop_first(), match_step(html, st, ms[0]))
    }
}

/// Every boundary span of the page, in the order its closing marker appears.
pub open spec fn spans_of(html: Seq<char>) -> Seq<Span> {
    match_all(html, markers_from(html, 0), MatchState { stack: seq![], spans: seq![] }).spans
}

/// Spans whose markers are in order and inside the page, and no two of
/// which start at the same place.
pub open spec fn spans_wf(spans: Seq<Span>, len: int) -> bool {
    &&& forall|i: int|
        #![trigger spans[i]]
        0 <= i < spans.len() ==> {
            &&& 0 <= spans[i].marker_start
            &&& span_wf(spans[i])
            &&& spans[i].marker_end <= len
        }
    &&& forall|i: int, j: int|
        0 <= i < spans.len() && 0 <= j < spans.len() && i != j ==> spans[i].marker_start
            != spans[j].marker_start
}

/// The markers of a span come in order around its content.
pub open spec fn span_wf(s: Span) -> bool {
    s.marker_start < s.content_start <= s.content_end < s.marker_end
}

// ---------------------------------------------------------------------------
// Boundaries of a page
// ---------------------------------------------------------------------------

/// `c` lies inside the content of `span`, starting at or after `cursor`.
pub open spec fn eligible_child(span: Span, c: Span, cursor: int) -> bool {
    &&& span_wf(c)
    &&& span.content_start <= c.marker_start
    &&& c.marker_end <= span.content_end
    &&& cursor <= c.marker_start
}

/// `spans[i]` is the first span, by start, inside `span`'s content at or
/// after `cursor`.
pub open spec fn is_first_child(spans: Seq<Span>, span: Span, cursor: int, i: int) -> bool {
    &&& 0 <= i < spans.len()
    &&& eligible_child(span, spans[i], cursor)
    &&& forall|j: int|
        0 <= j < spans.len() && eligible_child(span, #[trigger] spans[j], cursor)
            ==> spans[i].marker_start <= spans[j].marker_start
}

/// The content of `span` from `cursor` on, each outermost nested boundary
/// replaced by a reference to its id.
pub open spec fn normalized_from(html: Seq<char>, spans: Seq<Span>, span: Span, cursor: int) -> Seq<
    char,
>
    decreases span.content_end - cursor,
{
    if exists|i: int| is_first_child(spans, span, cursor, i) {
        let i = choose|i: int| is_first_child(spans, span, cursor, i);
        let c = spans[i];
        html.subrange(cursor, c.marker_start) + boundary_ref(c.id) + normalized_from(
            html,
            spans,
            span,
            c.marker_end,
        )
    } else {
        html.subrange(cursor, span.content_end)
    }
}

/// The content of `span` as it is hashed: nested boundaries stand as
/// references, so a change inside a child leaves the parent's hash alone.
pub open spec fn normalized(html: Seq<char>, spans: Seq<Span>, span: Span) -> Seq<char> {
    normalized_from(html, spans, span, span.content_start)
}

/// `c` strictly encloses `s`, markers included.
pub open spec fn encloses(c: Span, s: Span) -> bool {
    c.marker_start < s.marker_start && s.marker_end < c.marker_end
}

pub open spec fn span_len(s: Span) -> int {
    s.marker_end - s.marker_start
}

/// `spans[i]` is the innermost span enclosing `s`: the shortest one, and of
/// equally short ones the first.
pub open spec fn is_parent(spans: Seq<Span>, s: Span, i: int) -> bool {
    &&& 0 <= i < spans.len()
    &&& encloses(spans[i], s)
    &&& forall|j: int|
        0 <= j < spans.len() && encloses(#[trigger] spans[j], s) ==> span_len(spans[i]) < span_len(
            spans[j],
        ) || (span_len(spans[i]) == span_len(spans[j]) && spans[i].marker_start
            <= spans[j].marker_start)
}

/// The id of the innermost boundary enclosing `s`, if any.
pub open spec fn parent_of(spans: Seq<Span>, s: Span) -> Option<Seq<char>> {
    if exists|i: int| is_parent(spans, s, i) {
        Some(spans[choose|i: int| is_parent(spans, s, i)].id)
    } else {
        None
    }
}

/// The hash that the standard library's `DefaultHasher` gives a string with
/// these characters (a `str` hashes as its UTF-8 bytes followed by `0xff`).
pub open spec fn content_hash(s: Seq<char>) -> u64 {
    DefaultHasher::spec_finish(seq![vstd::utf8::encode_utf8(s), seq![0xffu8]])
}

/// What a snapshot records of one boundary.
pub struct BoundaryView {
    pub content: Seq<char>,
    pub hash: u64,
    pub parent: Option<Seq<char>>,
}

/// The record of the boundary that `s` delimits.
pub open spec fn span_boundary(html: Seq<char>, spans: Seq<Span>, s: Span) -> BoundaryView {
    BoundaryView {
        content: html.subrange(s.content_start, s.content_end),
        hash: content_hash(normalized(html, spans, s)),
        parent: parent_of(spans, s),
    }
}

/// `spans[i]` is the last span, by start, with its id: it is the one the id
/// stands for.
pub open spec fn is_winner(spans: Seq<Span>, i: int) -> bool {
    &&& 0 <= i < spans.len()
    &&& forall|j: int|
        0 <= j < spans.len() && (#[trigger] spans[j]).id == spans[i].id ==> spans[j].marker_start
            <= spans[i].marker_start
}

/// The index of the last span with id `id`.
pub open spec fn winner_of(spans: Seq<Span>, id: Seq<char>) -> int {
    choose|i: int| is_winner(spans, i) && spans[i].id == id
}

/// The boundaries that `spans` delimit, by id.
pub open spec fn boundary_map_of(html: Seq<char>, spans: Seq<Span>) -> Map<Seq<char>, BoundaryView> {
    Map::new(
        |id: Seq<char>| exists|i: int| 0 <= i < spans.len() && spans[i].id == id,
        |id: Seq<char>|
            span_boundary(html, spans, spans[winner_of(spans, id)]),
    )
}

/// The boundaries of a page, by id.
pub open spec fn boundary_map(html: Seq<char>) -> Map<Seq<char>, BoundaryView> {
    boundary_map_of(html, spans_of(html))
}

// ---------------------------------------------------------------------------
// Executable scan
// ---------------------------------------------------------------------------

struct OpenRecord {
    id: Vec<char>,
    marker_start: usize,
    content_start: usize,
}

impl OpenRecord {
    spec fn view(&self) -> Open {
        Open { id: self.id@, marker_start: self.marker_start as int, content_start: self.content_start as int }
    }
}

struct SpanRecord {
    id: Vec<char>,
    marker_start: usize,
    content_start: usize,
    content_end: usize,
    marker_end: usize,
}

impl SpanRecord {
    spec fn view(&self) -> Span {
        Span {
            id: self.id@,
            marker_start: self.marker_start as int,
            content_start: self.content_start as int,
            content_end: self.content_end as int,
            marker_end: self.marker_end as int,
        }
    }
}

spec fn opens_view(v: Seq<OpenRecord>) -> Seq<Open> {
    v.map_values(|r: OpenRecord| r.view())
}

spec fn spans_view(v: Seq<SpanRecord>) -> Seq<Span> {
    v.map_values(|r: SpanRecord| r.view())
}

/// The next marker at or after `cursor`, as (opening, start, id start, id end).
fn next_marker_exec(
    html: &Vec<char>,
    cursor: usize,
    start: &Vec<char>,
    end: &Vec<char>,
    close: &Vec<char>,
) -> (r: Option<(bool, usize, usize, usize)>)
    requires
        start@ == start_marker(),
        end@ == end_marker(),
        close@ == comment_close(),
    ensures
        match r {
            Some((opening, s, ids, ide)) => next_marker(html@, cursor as int) == Some(
                Marker { opening, start: s as int, id_start: ids as int, id_end: ide as int },
            ),
            None => next_marker(html@, cursor as int) is None,
        },
{
    proof {
        lemma_find_from(html@, start_marker(), cursor as int);
        lemma_find_from(html@, end_marker(), cursor as int);
    }
    let html_len = html.len();
    let s = find_from_exec(html, start, cursor);
    let e = find_from_exec(html, end, cursor);
    let (pos, opening) = match (s, e) {
        (Some(a), Some(b)) => if a < b {
            (a, true)
        } else {
            (b, false)
        },
        (Some(a), None) => (a, true),
        (None, Some(b)) => (b, false),
        (None, None) => {
            return None;
        },
    };
    proof {
        if opening {
            assert(occurs_at(html@, start_marker(), pos as int));
        } else {
            assert(occurs_at(html@, end_marker(), pos as int));
        }
    }
    let id_start = if opening {
        pos + start.len()
    } else {
        pos + end.len()
    };
    proof {
        lemma_find_from(html@, comment_close(), id_start as int);
    }
    match find_from_exec(html, close, id_start) {
        None => None,
        Some(id_end) => Some((opening, pos, id_start, id_end)),
    }
}

/// The index of the innermost open marker with id `id`.
fn last_open_with_exec(stack: &Vec<OpenRecord>, id: &Vec<char>) -> (r: Option<usize>)
    ensures
        match r {
            Some(k) => last_open_with(opens_view(stack@), id@) == k as int && k < stack@.len(),
            None => last_open_with(opens_view(stack@), id@) == -1,
        },
{
    let ghost all = opens_view(stack@);
    let mut k = stack.len();
    assert(all.take(k as int) =~= all);
    while k > 0
        invariant
            k <= stack@.len(),
            all == opens_view(stack@),
            last_open_with(all, id@) == last_open_with(all.take(k as int), id@),
        decreases k,
    {
        assert(all.take(k as int).drop_last() =~= all.take(k - 1));
        assert(all.take(k as int).last() == all[k - 1]);
        if chars_eq(&stack[k - 1].id, id) {
            return Some(k - 1);
        }
        k = k - 1;
    }
    None
}

/// Invariant of the scan: what is open and what is matched lies before the
/// cursor, in order, and no two of them start at the same place.
spec fn scan_wf(stack: Seq<Open>, spans: Seq<Span>, cursor: int, len: int) -> bool {
    &&& spans_wf(spans, len)
    &&& forall|i: int|
        #![trigger spans[i]]
        0 <= i < spans.len() ==> spans[i].marker_end <= cursor
    &&& forall|i: int|
        #![trigger stack[i]]
        0 <= i < stack.len() ==> 0 <= stack[i].marker_start < stack[i].content_start <= cursor
    &&& forall|i: int, j: int|
        0 <= i < stack.len() && 0 <= j < stack.len() && i != j ==> stack[i].marker_start
            != stack[j].marker_start
    &&& forall|i: int, j: int|
        0 <= i < stack.len() && 0 <= j < spans.len() ==> stack[i].marker_start
            != spans[j].marker_start
}

/// Every boundary span of `html`.
fn scan_spans(html: &Vec<char>) -> (spans: Vec<SpanRecord>)
    ensures
        spans_view(spans@) == spans_of(html@),
        spans_wf(spans_view(spans@), html@.len() as int),
{
    let start = start_marker_exec();
    let end = end_marker_exec();
    let close = comment_close_exec();
    let mut stack: Vec<OpenRecord> = Vec::new();
    let mut spans: Vec<SpanRecord> = Vec::new();
    let mut cursor: usize = 0;
    let ghost init = MatchState { stack: seq![], spans: seq![] };
    assert(opens_view(stack@) =~= seq![]);
    assert(spans_view(spans@) =~= seq![]);
    loop
        invariant
            cursor <= html@.len(),
            start@ == start_marker(),
            end@ == end_marker(),
            close@ == comment_close(),
            match_all(
                html@,
                markers_from(html@, cursor as int),
                MatchState { stack: opens_view(stack@), spans: spans_view(spans@) },
            ) == match_all(html@, markers_from(html@, 0), init),
            scan_wf(opens_view(stack@), spans_view(spans@), cursor as int, html@.len() as int),
        ensures
            next_marker(html@, cursor as int) is None,
            match_all(
                html@,
                markers_from(html@, cursor as int),
                MatchState { stack: opens_view(stack@), spans: spans_view(spans@) },
            ) == match_all(html@, markers_from(html@, 0), init),
            scan_wf(opens_view(stack@), spans_view(spans@), cursor as int, html@.len() as int),
        decreases html@.len() - cursor,
    {
        let (opening, pos, id_start, id_end) = match next_marker_exec(
            html,
            cursor,
            &start,
            &end,
            &close,
        ) {
            None => {
                break ;
            },
            Some(m) => m,
        };
        let ghost m = Marker {
            opening,
            start: pos as int,
            id_start: id_start as int,
            id_end: id_end as int,
        };
        proof {
            lemma_next_marker(html@, cursor as int);
        }
        let ghost old_stack = opens_view(stack@);
        let ghost old_spans = spans_view(spans@);
        let ghost st = MatchState { stack: old_stack, spans: old_spans };
        let ghost rest = markers_from(html@, marker_end(m));
        assert(markers_from(html@, cursor as int) == seq![m] + rest);
        assert((seq![m] + rest).drop_first() =~= rest);
        assert((seq![m] + rest)[0] == m);
        let html_len = html.len();
        let marker_end_pos = id_end + 3;
        let id = copy_range(html, id_start, id_end);
        if opening {
            stack.push(OpenRecord { id, marker_start: pos, content_start: marker_end_pos });
            assert(opens_view(stack@) =~= old_stack.push(
                Open { id: marker_id(html@, m), marker_start: m.start, content_start: marker_end(m) },
            ));
            assert(spans_view(spans@) =~= old_spans);
        } else {
            match last_open_with_exec(&stack, &id) {
                None => {},
                Some(k) => {
                    let open = stack.remove(k);
                    let ghost open_view = old_stack[k as int];
                    assert(open.view() == open_view);
                    assert(opens_view(stack@) =~= old_stack.remove(k as int));
                    spans.push(
                        SpanRecord {
                            id,
                            marker_start: open.marker_start,
                            content_start: open.content_start,
                            content_end: pos,
                            marker_end: marker_end_pos,
                        },
                    );
                    assert(spans_view(spans@) =~= old_spans.push(
                        Span {
                            id: marker_id(html@, m),
                            marker_start: open_view.marker_start,
                            content_start: open_view.content_start,
                            content_end: m.start,
                            marker_end: marker_end(m),
                        },
                    ));
                    let ghost new_stack = opens_view(stack@);
                    let ghost new_spans = spans_view(spans@);
                    assert forall|i: int, j: int|
                        0 <= i < new_stack.len() && 0 <= j < new_spans.len() implies new_stack[i].marker_start
                            != new_spans[j].marker_start by {
                        if i < k {
                            assert(new_stack[i] == old_stack[i]);
                        } else {
                            assert(new_stack[i] == old_stack[i + 1]);
                        }
                    }
                    assert forall|i: int, j: int|
                        0 <= i < new_stack.len() && 0 <= j < new_stack.len() && i != j implies new_stack[i].marker_start
                            != new_stack[j].marker_start by {
                        let oi = if i < k { i } else { i + 1 };
                        let oj = if j < k { j } else { j + 1 };
                        assert(new_stack[i] == old_stack[oi]);
                        assert(new_stack[j] == old_stack[oj]);
                    }
                    assert forall|i: int, j: int|
                        0 <= i < new_spans.len() && 0 <= j < new_spans.len() && i != j implies new_spans[i].marker_start
                            != new_spans[j].marker_start by {
                        if i < old_spans.len() && j < old_spans.len() {
                            assert(new_spans[i] == old_spans[i]);
                            assert(new_spans[j] == old_spans[j]);
                        } else if i < old_spans.len() {
                            assert(new_spans[i] == old_spans[i]);
                        } else {
                            assert(new_spans[j] == old_spans[j]);
                        }
                    }
                    assert forall|i: int|
                        0 <= i < new_stack.len() implies 0 <= #[trigger] new_stack[i].marker_start
                            < new_stack[i].content_start <= cursor by {
                        if i < k {
                            assert(new_stack[i] == old_stack[i]);
                        } else {
                            assert(new_stack[i] == old_stack[i + 1]);
                        }
                    }
                },
            }
        }
        cursor = marker_end_pos;
    }
    spans
}

/// The first span inside `span`'s content at or after `cursor`.
fn first_child_exec(spans: &Vec<SpanRecord>, span: &SpanRecord, cursor: usize) -> (r: Option<usize>)
    requires
        spans_wf(spans_view(spans@), usize::MAX as int),
    ensures
        match r {
            Some(k) => is_first_child(spans_view(spans@), span.view(), cursor as int, k as int),
            None => forall|j: int|
                0 <= j < spans@.len() ==> !eligible_child(
                    span.view(),
                    #[trigger] spans_view(spans@)[j],
                    cursor as int,
                ),
        },
{
    let ghost sv = spans_view(spans@);
    let mut best: Option<usize> = None;
    let mut j: usize = 0;
    while j < spans.len()
        invariant
            j <= spans@.len(),
            sv == spans_view(spans@),
            spans_wf(sv, usize::MAX as int),
            match best {
                Some(k) => {
                    &&& k < j
                    &&& eligible_child(span.view(), sv[k as int], cursor as int)
                    &&& forall|t: int|
                        0 <= t < j && eligible_child(span.view(), #[trigger] sv[t], cursor as int)
                            ==> sv[k as int].marker_start <= sv[t].marker_start
                },
                None => forall|t: int|
                    0 <= t < j ==> !eligible_child(span.view(), #[trigger] sv[t], cursor as int),
            },
        decreases spans.len() - j,
    {
        let c = &spans[j];
        assert(c.view() == sv[j as int]);
        if span.content_start <= c.marker_start && c.marker_end <= span.content_end && cursor
            <= c.marker_start {
            match best {
                None => {
                    best = Some(j);
                },
                Some(k) => {
                    if c.marker_start < spans[k].marker_start {
                        best = Some(j);
                    }
                },
            }
        }
        j = j + 1;
    }
    best
}

/// Two first children are the same span, since no two spans start together.
proof fn lemma_first_child_unique(spans: Seq<Span>, span: Span, cursor: int, i: int, j: int)
    requires
        spans_wf(spans, usize::MAX as int),
        is_first_child(spans, span, cursor, i),
        is_first_child(spans, span, cursor, j),
    ensures
        i == j,
{
    assert(spans[i].marker_start <= spans[j].marker_start);
    assert(spans[j].marker_start <= spans[i].marker_start);
}

/// The content of `span` with nested boundaries replaced by references.
fn normalized_exec(html: &Vec<char>, spans: &Vec<SpanRecord>, span: &SpanRecord) -> (r: Vec<char>)
    requires
        spans_wf(spans_view(spans@), html@.len() as int),
        span_wf(span.view()),
        span.marker_end <= html@.len(),
    ensures
        r@ == normalized(html@, spans_view(spans@), span.view()),
{
    let ghost sv = spans_view(spans@);
    let ghost sp = span.view();
    let prefix = ref_prefix_exec();
    let close = comment_close_exec();
    let mut out: Vec<char> = Vec::new();
    let mut cur = span.content_start;
    loop
        invariant_except_break
            out@ + normalized_from(html@, sv, sp, cur as int) == normalized(html@, sv, sp),
        invariant
            sv == spans_view(spans@),
            sp == span.view(),
            spans_wf(sv, html@.len() as int),
            span_wf(sp),
            span.marker_end <= html@.len(),
            prefix@ == ref_prefix(),
            close@ == comment_close(),
            sp.content_start <= cur <= sp.content_end,
        ensures
            out@ == normalized(html@, sv, sp),
        decreases sp.content_end - cur,
    {
        match first_child_exec(spans, span, cur) {
            None => {
                assert(!exists|i: int| is_first_child(sv, sp, cur as int, i));
                let ghost before = out@;
                push_range(&mut out, html, cur, span.content_end);
                assert(out@ == before + normalized_from(html@, sv, sp, cur as int));
                break ;
            },
            Some(k) => {
                let ghost i = choose|i: int| is_first_child(sv, sp, cur as int, i);
                proof {
                    lemma_first_child_unique(sv, sp, cur as int, i, k as int);
                }
                let c = &spans[k];
                assert(c.view() == sv[k as int]);
                let ghost before = out@;
                push_range(&mut out, html, cur, c.marker_start);
                push_all(&mut out, &prefix);
                push_all(&mut out, &c.id);
                push_all(&mut out, &close);
                assert(out@ =~= before + (html@.subrange(cur as int, c.marker_start as int)
                    + boundary_ref(c.id@)));
                cur = c.marker_end;
            },
        }
    }
    out
}

/// Two innermost enclosing spans are the same span.
proof fn lemma_parent_unique(spans: Seq<Span>, s: Span, i: int, j: int)
    requires
        spans_wf(spans, usize::MAX as int),
        is_parent(spans, s, i),
        is_parent(spans, s, j),
    ensures
        i == j,
{
    assert(spans[i].marker_start <= spans[j].marker_start);
    assert(spans[j].marker_start <= spans[i].marker_start);
}

/// The index of the innermost span enclosing `s`.
fn parent_exec(spans: &Vec<SpanRecord>, s: &SpanRecord) -> (r: Option<usize>)
    requires
        spans_wf(spans_view(spans@), usize::MAX as int),
    ensures
        match r {
            Some(k) => is_parent(spans_view(spans@), s.view(), k as int),
            None => !exists|i: int| is_parent(spans_view(spans@), s.view(), i),
        },
{
    let ghost sv = spans_view(spans@);
    let mut best: Option<usize> = None;
    let mut j: usize = 0;
    while j < spans.len()
        invariant
            j <= spans@.len(),
            sv == spans_view(spans@),
            spans_wf(sv, usize::MAX as int),
            match best {
                Some(k) => {
                    &&& k < j
                    &&& encloses(sv[k as int], s.view())
                    &&& forall|t: int|
                        0 <= t < j && encloses(#[trigger] sv[t], s.view()) ==> span_len(sv[k as int])
                            < span_len(sv[t]) || (span_len(sv[k as int]) == span_len(sv[t])
                            && sv[k as int].marker_start <= sv[t].marker_start)
                },
                None => forall|t: int| 0 <= t < j ==> !encloses(#[trigger] sv[t], s.view()),
            },
        decreases spans.len() - j,
    {
        let c = &spans[j];
        assert(c.view() == sv[j as int]);
        if c.marker_start < s.marker_start && s.marker_end < c.marker_end {
            match best {
                None => {
                    best = Some(j);
                },
                Some(k) => {
                    let b = &spans[k];
                    let c_len = c.marker_end - c.marker_start;
                    let b_len = b.marker_end - b.marker_start;
                    if c_len < b_len || (c_len == b_len && c.marker_start < b.marker_start) {
                        best = Some(j);
                    }
                },
            }
        }
        j = j + 1;
    }
    best
}

/// Whether `spans[i]` is the last span with its id.
fn is_winner_exec(spans: &Vec<SpanRecord>, i: usize) -> (r: bool)
    requires
        i < spans@.len(),
    ensures
        r == is_winner(spans_view(spans@), i as int),
{
    let ghost sv = spans_view(spans@);
    let mut j: usize = 0;
    while j < spans.len()
        invariant
            i < spans@.len(),
            j <= spans@.len(),
            sv == spans_view(spans@),
            forall|t: int|
                0 <= t < j && (#[trigger] sv[t]).id == sv[i as int].id ==> sv[t].marker_start
                    <= sv[i as int].marker_start,
        decreases spans.len() - j,
    {
        assert(spans[j as int].view() == sv[j as int]);
        assert(spans[i as int].view() == sv[i as int]);
        if spans[j].marker_start > spans[i].marker_start && chars_eq(&spans[j].id, &spans[i].id) {
            return false;
        }
        j = j + 1;
    }
    true
}

/// The hash of the string with the characters of `v`, as `str` hashes.
fn content_hash_exec(v: &Vec<char>) -> (r: u64)
    ensures
        r == content_hash(v@),
{
    let s = string_of(v);
    let mut h = DefaultHasher::new();
    h.write(s.as_str().as_bytes());
    let terminator: [u8; 1] = [0xffu8];
    h.write(&terminator);
    assert(terminator@ =~= seq![0xffu8]);
    assert(h@ =~= seq![vstd::utf8::encode_utf8(v@), seq![0xffu8]]);
    h.finish()
}

// ---------------------------------------------------------------------------
// Snapshots
// ---------------------------------------------------------------------------

/// One boundary of a snapshot, by id.
pub type BoundaryItem = (Seq<char>, BoundaryView);

/// Ids strictly increase, so each id occurs once.
pub open spec fn entries_sorted(e: Seq<BoundaryItem>) -> bool {
    forall|i: int, j: int| 0 <= i < j < e.len() ==> seq_lt(#[trigger] e[i].0, #[trigger] e[j].0)
}

/// The boundaries of a snapshot as a map from id.
pub open spec fn entries_map(e: Seq<BoundaryItem>) -> Map<Seq<char>, BoundaryView> {
    Map::new(
        |id: Seq<char>| exists|i: int| 0 <= i < e.len() && e[i].0 == id,
        |id: Seq<char>| e[index_of_id(e, id)].1,
    )
}

/// An index at which `id` occurs in `e`.
pub open spec fn index_of_id(e: Seq<BoundaryItem>, id: Seq<char>) -> int {
    choose|i: int| 0 <= i < e.len() && e[i].0 == id
}

/// What a snapshot holds: the page and its boundaries in id order.
pub struct SnapshotView {
    pub html: Seq<char>,
    pub entries: Seq<BoundaryItem>,
}

pub open spec fn snapshot_wf(v: SnapshotView) -> bool {
    entries_sorted(v.entries)
}

/// `v` is the snapshot of the page `html`: its boundaries, in id order.
pub open spec fn parses_to(v: SnapshotView, html: Seq<char>) -> bool {
    &&& v.html == html
    &&& snapshot_wf(v)
    &&& entries_map(v.entries) == boundary_map(html)
}

/// In sorted entries, an id is found at its one index.
pub proof fn lemma_entries_lookup(e: Seq<BoundaryItem>, i: int)
    requires
        entries_sorted(e),
        0 <= i < e.len(),
    ensures
        entries_map(e).contains_key(e[i].0),
        entries_map(e)[e[i].0] == e[i].1,
{
    let id = e[i].0;
    assert(0 <= i < e.len() && e[i].0 == id);
    let k = index_of_id(e, id);
    if k != i {
        if k < i {
            assert(seq_lt(e[k].0, e[i].0));
        } else {
            assert(seq_lt(e[i].0, e[k].0));
        }
        crate::text::lemma_seq_lt_irreflexive(id);
    }
    assert(entries_map(e).contains_key(id));
    assert(entries_map(e)[id] == e[k].1);
}

#[derive(Debug)]
struct BoundaryEntry {
    id: Vec<char>,
    content: Vec<char>,
    hash: u64,
    parent: Option<Vec<char>>,
}

spec fn opt_chars_view(o: Option<Vec<char>>) -> Option<Seq<char>> {
    match o {
        Some(v) => Some(v@),
        None => None,
    }
}

impl BoundaryEntry {
    spec fn view(&self) -> BoundaryItem {
        (
            self.id@,
            BoundaryView {
                content: self.content@,
                hash: self.hash,
                parent: opt_chars_view(self.parent),
            },
        )
    }
}

spec fn entries_view(v: Seq<BoundaryEntry>) -> Seq<BoundaryItem> {
    v.map_values(|e: BoundaryEntry| e.view())
}

/// Inserts an entry whose id is new, keeping ids in order.
fn insert_sorted(entries: &mut Vec<BoundaryEntry>, e: BoundaryEntry)
    requires
        entries_sorted(entries_view(old(entries)@)),
        forall|k: int|
            0 <= k < old(entries)@.len() ==> (#[trigger] entries_view(old(entries)@)[k]).0 != e.id@,
    ensures
        entries_sorted(entries_view(final(entries)@)),
        entries_map(entries_view(final(entries)@)) == entries_map(entries_view(old(entries)@)).insert(
            e.view().0,
            e.view().1,
        ),
{
    let ghost old_v = entries_view(entries@);
    let ghost x = e.view();
    let mut p: usize = 0;
    while p < entries.len() && !chars_lt(&e.id, &entries[p].id)
        invariant
            p <= entries@.len(),
            old_v == entries_view(entries@),
            x == e.view(),
            forall|k: int| 0 <= k < old_v.len() ==> (#[trigger] old_v[k]).0 != x.0,
            forall|k: int| 0 <= k < p ==> seq_lt(#[trigger] old_v[k].0, x.0),
        decreases entries.len() - p,
    {
        assert(entries@[p as int].view() == old_v[p as int]);
        proof {
            crate::text::lemma_seq_lt_trichotomy(x.0, old_v[p as int].0);
        }
        p = p + 1;
    }
    proof {
        if p < entries@.len() {
            assert(entries@[p as int].view() == old_v[p as int]);
        }
    }
    entries.insert(p, e);
    let ghost new_v = entries_view(entries@);
    assert(new_v =~= old_v.insert(p as int, x));
    assert forall|a: int, b: int| 0 <= a < b < new_v.len() implies seq_lt(
        #[trigger] new_v[a].0,
        #[trigger] new_v[b].0,
    ) by {
        if b < p {
        } else if b == p {
        } else if a < p {
            assert(new_v[b] == old_v[b - 1]);
            if p < old_v.len() {
                if b - 1 > p {
                    assert(seq_lt(old_v[p as int].0, old_v[b - 1].0));
                    crate::text::lemma_seq_lt_transitive(x.0, old_v[p as int].0, old_v[b - 1].0);
                }
                crate::text::lemma_seq_lt_transitive(old_v[a].0, x.0, old_v[b - 1].0);
            }
        } else if a == p {
            assert(new_v[b] == old_v[b - 1]);
            if b - 1 > p {
                assert(seq_lt(old_v[p as int].0, old_v[b - 1].0));
                crate::text::lemma_seq_lt_transitive(x.0, old_v[p as int].0, old_v[b - 1].0);
            }
        } else {
            assert(new_v[a] == old_v[a - 1]);
            assert(new_v[b] == old_v[b - 1]);
        }
    }
    let ghost m_old = entries_map(old_v);
    let ghost m_new = entries_map(new_v);
    assert forall|id: Seq<char>| #[trigger] m_new.contains_key(id) <==> m_old.insert(x.0, x.1).contains_key(id) by {
        if m_new.contains_key(id) {
            let i = choose|i: int| 0 <= i < new_v.len() && new_v[i].0 == id;
            if i < p {
                assert(old_v[i].0 == id);
            } else if i > p {
                assert(old_v[i - 1].0 == id);
            }
        }
        if m_old.contains_key(id) {
            let i = choose|i: int| 0 <= i < old_v.len() && old_v[i].0 == id;
            if i < p {
                assert(new_v[i].0 == id);
            } else {
                assert(new_v[i + 1].0 == id);
            }
        }
        if id == x.0 {
            assert(new_v[p as int].0 == id);
        }
    }
    assert forall|id: Seq<char>| #[trigger] m_new.contains_key(id) implies m_new[id] == m_old.insert(
        x.0,
        x.1,
    )[id] by {
        let i = choose|i: int| 0 <= i < new_v.len() && new_v[i].0 == id;
        lemma_entries_lookup(new_v, i);
        if i < p {
            lemma_entries_lookup(old_v, i);
        } else if i > p {
            lemma_entries_lookup(old_v, i - 1);
        }
    }
    assert(m_new =~= m_old.insert(x.0, x.1));
}

/// Index of the last span, by start, with id `id` among the first `n`, or -1.
spec fn last_with_id(spans: Seq<Span>, id: Seq<char>, n: int) -> int
    decreases n,
{
    if n <= 0 {
        -1
    } else {
        let b = last_with_id(spans, id, n - 1);
        if spans[n - 1].id == id && (b < 0 || spans[n - 1].marker_start > spans[b].marker_start) {
            n - 1
        } else {
            b
        }
    }
}

proof fn lemma_last_with_id(spans: Seq<Span>, id: Seq<char>, n: int)
    requires
        0 <= n <= spans.len(),
    ensures
        last_with_id(spans, id, n) < n,
        last_with_id(spans, id, n) >= 0 ==> spans[last_with_id(spans, id, n)].id == id,
        forall|k: int|
            0 <= k < n && (#[trigger] spans[k]).id == id ==> last_with_id(spans, id, n) >= 0
                && spans[k].marker_start <= spans[last_with_id(spans, id, n)].marker_start,
    decreases n,
{
    if n > 0 {
        lemma_last_with_id(spans, id, n - 1);
    }
}

/// Every id has a last span.
pub proof fn lemma_winner_exists(spans: Seq<Span>, i: int)
    requires
        0 <= i < spans.len(),
    ensures
        exists|w: int| is_winner(spans, w) && spans[w].id == spans[i].id,
{
    let id = spans[i].id;
    lemma_last_with_id(spans, id, spans.len() as int);
    let w = last_with_id(spans, id, spans.len() as int);
    assert(is_winner(spans, w));
}

/// The boundaries delimited by the last spans of their ids among the first `n`.
spec fn winners_map(html: Seq<char>, spans: Seq<Span>, n: int) -> Map<Seq<char>, BoundaryView> {
    Map::new(
        |id: Seq<char>| exists|k: int| 0 <= k < n && is_winner(spans, k) && spans[k].id == id,
        |id: Seq<char>|
            span_boundary(html, spans, spans[winner_of(spans, id)]),
    )
}

/// The record of the boundary that `spans[i]` delimits.
fn boundary_entry(html: &Vec<char>, spans: &Vec<SpanRecord>, i: usize) -> (e: BoundaryEntry)
    requires
        i < spans@.len(),
        spans_wf(spans_view(spans@), html@.len() as int),
    ensures
        e.view() == (
            spans_view(spans@)[i as int].id,
            span_boundary(html@, spans_view(spans@), spans_view(spans@)[i as int]),
        ),
{
    let ghost sv = spans_view(spans@);
    let s = &spans[i];
    assert(s.view() == sv[i as int]);
    let content = copy_range(html, s.content_start, s.content_end);
    let normalized = normalized_exec(html, spans, s);
    let hash = content_hash_exec(&normalized);
    let parent = match parent_exec(spans, s) {
        None => None,
        Some(k) => {
            proof {
                let c = choose|c: int| is_parent(sv, sv[i as int], c);
                lemma_parent_unique(sv, sv[i as int], c, k as int);
            }
            assert(spans@[k as int].view() == sv[k as int]);
            let pid = copy_range(&spans[k].id, 0, spans[k].id.len());
            assert(spans[k as int].id@.subrange(0, spans[k as int].id@.len() as int) =~= spans[k as int].id@);
            Some(pid)
        },
    };
    let id = copy_range(&s.id, 0, s.id.len());
    assert(s.id@.subrange(0, s.id@.len() as int) =~= s.id@);
    BoundaryEntry { id, content, hash, parent }
}

/// The records of all boundaries that `spans` delimit, in id order.
fn build_entries(html: &Vec<char>, spans: &Vec<SpanRecord>) -> (entries: Vec<BoundaryEntry>)
    requires
        spans_wf(spans_view(spans@), html@.len() as int),
    ensures
        entries_sorted(entries_view(entries@)),
        entries_map(entries_view(entries@)) == boundary_map_of(html@, spans_view(spans@)),
{
    let ghost sv = spans_view(spans@);
    let mut entries: Vec<BoundaryEntry> = Vec::new();
    assert(entries_map(entries_view(entries@)) =~= winners_map(html@, sv, 0));
    let mut i: usize = 0;
    while i < spans.len()
        invariant
            i <= spans@.len(),
            sv == spans_view(spans@),
            spans_wf(sv, html@.len() as int),
            entries_sorted(entries_view(entries@)),
            entries_map(entries_view(entries@)) == winners_map(html@, sv, i as int),
        decreases spans.len() - i,
    {
        let ghost before = entries_map(entries_view(entries@));
        if is_winner_exec(spans, i) {
            let e = boundary_entry(html, spans, i);
            proof {
                assert forall|k: int| 0 <= k < entries@.len() implies (#[trigger] entries_view(
                    entries@,
                )[k]).0 != e.view().0 by {
                    let ev = entries_view(entries@);
                    lemma_entries_lookup(ev, k);
                    if ev[k].0 == e.view().0 {
                        let w = choose|w: int|
                            0 <= w < i && is_winner(sv, w) && sv[w].id == ev[k].0;
                        assert(sv[w].marker_start <= sv[i as int].marker_start);
                        assert(sv[i as int].marker_start <= sv[w].marker_start);
                    }
                }
            }
            insert_sorted(&mut entries, e);
            proof {
                let id = sv[i as int].id;
                let w = winner_of(sv, id);
                assert(is_winner(sv, i as int) && sv[i as int].id == id);
                assert(sv[w].marker_start <= sv[i as int].marker_start);
                assert(sv[i as int].marker_start <= sv[w].marker_start);
                assert(w == i);
                assert(entries_map(entries_view(entries@)) =~= winners_map(html@, sv, i + 1));
            }
        } else {
            assert(before =~= winners_map(html@, sv, i + 1));
        }
        i = i + 1;
    }
    proof {
        let m = winners_map(html@, sv, sv.len() as int);
        let target = boundary_map_of(html@, sv);
        assert forall|id: Seq<char>| #[trigger] target.contains_key(id) implies m.contains_key(id) by {
            let k = choose|k: int| 0 <= k < sv.len() && sv[k].id == id;
            lemma_winner_exists(sv, k);
        }
        assert(m =~= target);
    }
    entries
}

/// A rendered page and its boundaries.
#[derive(Debug)]
pub struct Snapshot {
    html: Vec<char>,
    entries: Vec<BoundaryEntry>,
}

impl View for Snapshot {
    type V = SnapshotView;

    closed spec fn view(&self) -> SnapshotView {
        SnapshotView { html: self.html@, entries: entries_view(self.entries@) }
    }
}

impl Snapshot {
    #[verifier::type_invariant]
    spec fn inv(self) -> bool {
        entries_sorted(entries_view(self.entries@))
    }

    /// Finds the boundaries of a rendered page.
    pub fn parse(html: String) -> (s: Snapshot)
        ensures
            parses_to(s@, html@),
    {
        let chars = chars_of(html.as_str());
        let spans = scan_spans(&chars);
        let entries = build_entries(&chars, &spans);
        Snapshot { html: chars, entries }
    }
}

// ---------------------------------------------------------------------------
// Swap instructions
// ---------------------------------------------------------------------------

/// One character as it stands inside a double-quoted attribute.
pub open spec fn escape_char(c: char) -> Seq<char> {
    if c == '&' {
        seq!['&', 'a', 'm', 'p', ';']
    } else if c == '"' {
        seq!['&', 'q', 'u', 'o', 't', ';']
    } else if c == '<' {
        seq!['&', 'l', 't', ';']
    } else {
        seq![c]
    }
}

/// `value` escaped for a double-quoted attribute: `&`, `"` and `<` become
/// entities.
pub open spec fn escape_attribute(value: Seq<char>) -> Seq<char>
    decreases value.len(),
{
    if value.len() == 0 {
        seq![]
    } else {
        escape_attribute(value.drop_last()) + escape_char(value.last())
    }
}

/// The id that stands for the whole document.
pub open spec fn root_id() -> Seq<char> {
    "root"@
}

/// `<template data-topcoat-swap="ID">HTML</template>`: replace the boundary
/// `id` (or the whole document for `root`) with `html`.
pub open spec fn swap_template_spec(id: Seq<char>, html: Seq<char>) -> Seq<char> {
    "<template data-topcoat-swap=\""@ + escape_attribute(id) + "\">"@ + html + "</template>"@
}

/// `<template data-topcoat-redirect="LOCATION"></template>`: navigate to
/// `location`.
pub open spec fn redirect_template_spec(location: Seq<char>) -> Seq<char> {
    "<template data-topcoat-redirect=\""@ + escape_attribute(location) + "\"></template>"@
}

/// Appends `value` escaped for an attribute.
fn push_escaped(out: &mut Vec<char>, value: &Vec<char>)
    ensures
        final(out)@ == old(out)@ + escape_attribute(value@),
{
    let ghost start = out@;
    let mut i: usize = 0;
    assert(value@.take(0) =~= seq![]);
    while i < value.len()
        invariant
            i <= value@.len(),
            out@ == start + escape_attribute(value@.take(i as int)),
        decreases value.len() - i,
    {
        let c = value[i];
        let ghost before = out@;
        if c == '&' {
            out.push('&');
            out.push('a');
            out.push('m');
            out.push('p');
            out.push(';');
        } else if c == '"' {
            out.push('&');
            out.push('q');
            out.push('u');
            out.push('o');
            out.push('t');
            out.push(';');
        } else if c == '<' {
            out.push('&');
            out.push('l');
            out.push('t');
            out.push(';');
        } else {
            out.push(c);
        }
        assert(out@ =~= before + escape_char(c));
        assert(value@.take(i + 1).drop_last() =~= value@.take(i as int));
        assert(value@.take(i + 1).last() == c);
        i = i + 1;
    }
    assert(value@.take(value@.len() as int) =~= value@);
}

/// Appends the swap instruction for `id` and `html`.
fn push_swap(out: &mut Vec<char>, id: &Vec<char>, html: &Vec<char>)
    ensures
        final(out)@ == old(out)@ + swap_template_spec(id@, html@),
{
    let ghost start = out@;
    let open = chars_of("<template data-topcoat-swap=\"");
    let mid = chars_of("\">");
    let close = chars_of("</template>");
    push_all(out, &open);
    push_escaped(out, id);
    push_all(out, &mid);
    push_all(out, html);
    push_all(out, &close);
    assert(out@ =~= start + swap_template_spec(id@, html@));
}

/// The instruction that replaces boundary `id`, or the whole document for
/// `root`, with `html`.
pub fn swap_template(id: &str, html: &str) -> (r: String)
    ensures
        r@ == swap_template_spec(id@, html@),
{
    let mut out: Vec<char> = Vec::new();
    push_swap(&mut out, &chars_of(id), &chars_of(html));
    string_of(&out)
}

/// The instruction that makes the browser navigate to `location`.
pub fn redirect_template(location: &str) -> (r: String)
    ensures
        r@ == redirect_template_spec(location@),
{
    let mut out: Vec<char> = Vec::new();
    let open = chars_of("<template data-topcoat-redirect=\"");
    let close = chars_of("\"></template>");
    push_all(&mut out, &open);
    push_escaped(&mut out, &chars_of(location));
    push_all(&mut out, &close);
    assert(out@ =~= redirect_template_spec(location@));
    string_of(&out)
}

// ---------------------------------------------------------------------------
// Reconciliation
// ---------------------------------------------------------------------------

/// A top-level boundary (one without a parent) of one snapshot is missing
/// from the other.
pub open spec fn root_structure_changed(old: SnapshotView, next: SnapshotView) -> bool {
    ||| exists|i: int|
        0 <= i < old.entries.len() && (#[trigger] old.entries[i]).1.parent is None
            && !entries_map(next.entries).contains_key(old.entries[i].0)
    ||| exists|j: int|
        0 <= j < next.entries.len() && (#[trigger] next.entries[j]).1.parent is None
            && !entries_map(old.entries).contains_key(next.entries[j].0)
}

/// The boundary `item` of the next pass is new or its hash differs.
pub open spec fn is_changed(old: SnapshotView, item: BoundaryItem) -> bool {
    !entries_map(old.entries).contains_key(item.0) || entries_map(old.entries)[item.0].hash
        != item.1.hash
}

/// The swap instructions of the changed boundaries among `items`, in order.
pub open spec fn changed_swaps(old: SnapshotView, items: Seq<BoundaryItem>) -> Seq<char>
    decreases items.len(),
{
    if items.len() == 0 {
        seq![]
    } else {
        changed_swaps(old, items.drop_last()) + if is_changed(old, items.last()) {
            swap_template_spec(items.last().0, items.last().1.content)
        } else {
            seq![]
        }
    }
}

/// Some boundary of the next pass is new or changed.
pub open spec fn any_changed(old: SnapshotView, next: SnapshotView) -> bool {
    exists|j: int| 0 <= j < next.entries.len() && is_changed(old, #[trigger] next.entries[j])
}

/// What the browser receives to turn the page of `old` into that of `next`:
/// a root swap when the top-level structure changed; otherwise a swap of each
/// changed boundary in id order; with no changed boundary, a root swap when a
/// page without boundaries changed, else nothing.
pub open spec fn reconcile_chunk(old: SnapshotView, next: SnapshotView) -> Seq<char> {
    if root_structure_changed(old, next) {
        swap_template_spec(root_id(), next.html)
    } else if !any_changed(old, next) {
        if old.entries.len() == 0 && old.html != next.html {
            swap_template_spec(root_id(), next.html)
        } else {
            seq![]
        }
    } else {
        changed_swaps(old, next.entries)
    }
}

/// The index of `id` among sorted entries.
fn lookup_exec(entries: &Vec<BoundaryEntry>, id: &Vec<char>) -> (r: Option<usize>)
    requires
        entries_sorted(entries_view(entries@)),
    ensures
        match r {
            Some(k) => {
                &&& k < entries@.len()
                &&& entries_view(entries@)[k as int].0 == id@
                &&& entries_map(entries_view(entries@)).contains_key(id@)
                &&& entries_map(entries_view(entries@))[id@] == entries_view(entries@)[k as int].1
            },
            None => !entries_map(entries_view(entries@)).contains_key(id@),
        },
{
    let ghost ev = entries_view(entries@);
    let mut k: usize = 0;
    while k < entries.len()
        invariant
            k <= entries@.len(),
            ev == entries_view(entries@),
            entries_sorted(ev),
            forall|t: int| 0 <= t < k ==> (#[trigger] ev[t]).0 != id@,
        decreases entries.len() - k,
    {
        assert(entries@[k as int].view() == ev[k as int]);
        if chars_eq(&entries[k].id, id) {
            proof {
                lemma_entries_lookup(ev, k as int);
            }
            return Some(k);
        }
        k = k + 1;
    }
    None
}

/// Whether some top-level boundary of `from` is missing from `to`.
fn top_level_missing(from: &Vec<BoundaryEntry>, to: &Vec<BoundaryEntry>) -> (r: bool)
    requires
        entries_sorted(entries_view(to@)),
    ensures
        r == exists|i: int|
            0 <= i < from@.len() && (#[trigger] entries_view(from@)[i]).1.parent is None
                && !entries_map(entries_view(to@)).contains_key(entries_view(from@)[i].0),
{
    let ghost fv = entries_view(from@);
    let mut i: usize = 0;
    while i < from.len()
        invariant
            i <= from@.len(),
            fv == entries_view(from@),
            entries_sorted(entries_view(to@)),
            forall|t: int|
                0 <= t < i ==> !((#[trigger] fv[t]).1.parent is None && !entries_map(
                    entries_view(to@),
                ).contains_key(fv[t].0)),
        decreases from.len() - i,
    {
        assert(from@[i as int].view() == fv[i as int]);
        if from[i].parent.is_none() {
            if lookup_exec(to, &from[i].id).is_none() {
                return true;
            }
        }
        i = i + 1;
    }
    false
}

impl Snapshot {
    /// Compares this pass with the next one. Returns the next snapshot and the
    /// chunk of swap instructions to stream (empty when nothing changed).
    pub fn reconcile(&self, next: Snapshot) -> (r: (Snapshot, String))
        ensures
            r.0@ == next@,
            r.1@ == reconcile_chunk(self@, next@),
    {
        proof {
            use_type_invariant(self);
            use_type_invariant(&next);
        }
        let ghost old_v = self@;
        let ghost next_v = next@;
        let structure_changed = top_level_missing(&self.entries, &next.entries)
            || top_level_missing(&next.entries, &self.entries);
        let mut swaps: Vec<char> = Vec::new();
        let mut any = false;
        let mut j: usize = 0;
        assert(next_v.entries.take(0) =~= seq![]);
        while j < next.entries.len()
            invariant
                j <= next.entries@.len(),
                old_v == self@,
                next_v == next@,
                entries_sorted(entries_view(self.entries@)),
                swaps@ == changed_swaps(old_v, next_v.entries.take(j as int)),
                any == exists|t: int| 0 <= t < j && is_changed(old_v, #[trigger] next_v.entries[t]),
            decreases next.entries.len() - j,
        {
            let e = &next.entries[j];
            assert(e.view() == next_v.entries[j as int]);
            let changed = match lookup_exec(&self.entries, &e.id) {
                None => true,
                Some(k) => {
                    assert(self.entries@[k as int].view() == old_v.entries[k as int]);
                    self.entries[k].hash != e.hash
                },
            };
            assert(changed == is_changed(old_v, next_v.entries[j as int]));
            if changed {
                push_swap(&mut swaps, &e.id, &e.content);
                any = true;
            }
            assert(next_v.entries.take(j + 1).drop_last() =~= next_v.entries.take(j as int));
            assert(next_v.entries.take(j + 1).last() == next_v.entries[j as int]);
            j = j + 1;
        }
        assert(next_v.entries.take(next_v.entries.len() as int) =~= next_v.entries);
        let chunk = if structure_changed {
            swap_template_root(&next.html)
        } else if !any {
            if self.entries.len() == 0 && !chars_eq(&self.html, &next.html) {
                swap_template_root(&next.html)
            } else {
                String::new()
            }
        } else {
            string_of(&swaps)
        };
        (next, chunk)
    }
}

/// The instruction that replaces the whole document with `html`.
fn swap_template_root(html: &Vec<char>) -> (r: String)
    ensures
        r@ == swap_template_spec(root_id(), html@),
{
    let mut out: Vec<char> = Vec::new();
    push_swap(&mut out, &chars_of("root"), html);
    string_of(&out)
}

fn copy_chars(v: &Vec<char>) -> (r: Vec<char>)
    ensures
        r@ == v@,
{
    let r = copy_range(v, 0, v.len());
    assert(v@.subrange(0, v@.len() as int) =~= v@);
    r
}

impl BoundaryEntry {
    fn copy(&self) -> (r: BoundaryEntry)
        ensures
            r.view() == self.view(),
    {
        let parent = match &self.parent {
            None => None,
            Some(p) => Some(copy_chars(p)),
        };
        BoundaryEntry {
            id: copy_chars(&self.id),
            content: copy_chars(&self.content),
            hash: self.hash,
            parent,
        }
    }
}

impl Clone for Snapshot {
    fn clone(&self) -> (r: Self)
        ensures
            r@ == self@,
    {
        proof {
            use_type_invariant(self);
        }
        let mut entries: Vec<BoundaryEntry> = Vec::new();
        let mut i: usize = 0;
        while i < self.entries.len()
            invariant
                i <= self.entries@.len(),
                entries_view(entries@) == entries_view(self.entries@).take(i as int),
            decreases self.entries.len() - i,
        {
            let ghost before = entries@;
            let c = self.entries[i].copy();
            entries.push(c);
            assert(entries@ == before.push(c));
            assert(entries_view(entries@) =~= entries_view(before).push(c.view()));
            assert(self.entries@[i as int].view() == entries_view(self.entries@)[i as int]);
            assert(entries_view(entries@) =~= entries_view(self.entries@).take(i + 1));
            i = i + 1;
        }
        assert(entries_view(self.entries@).take(self.entries@.len() as int) =~= entries_view(
            self.entries@,
        ));
        Snapshot { html: copy_chars(&self.html), entries }
    }
}

// ---------------------------------------------------------------------------
// Laws
// ---------------------------------------------------------------------------

/// Reconciling a snapshot with an equal one emits no instruction.
pub proof fn law_unchanged_snapshot_emits_nothing(v: SnapshotView)
    requires
        snapshot_wf(v),
    ensures
        reconcile_chunk(v, v) == Seq::<char>::empty(),
{
    assert forall|j: int| 0 <= j < v.entries.len() implies !is_changed(v, #[trigger] v.entries[j]) by {
        lemma_entries_lookup(v.entries, j);
    }
    assert forall|i: int| 0 <= i < v.entries.len() implies entries_map(v.entries).contains_key(
        (#[trigger] v.entries[i]).0,
    ) by {
        lemma_entries_lookup(v.entries, i);
    }
}

/// When a top-level boundary appears or disappears, the whole document is
/// swapped.
pub proof fn law_structure_change_swaps_root(old: SnapshotView, next: SnapshotView)
    requires
        root_structure_changed(old, next),
    ensures
        reconcile_chunk(old, next) == swap_template_spec(root_id(), next.html),
{
}

/// A boundary whose content, with nested boundaries standing as references,
/// is the same in two passes keeps its hash: a change inside a child does not
/// make its parent change.
pub proof fn law_nested_change_keeps_parent_hash(old_html: Seq<char>, next_html: Seq<char>, id: Seq<char>)
    requires
        boundary_map(old_html).contains_key(id),
        boundary_map(next_html).contains_key(id),
        normalized(
            old_html,
            spans_of(old_html),
            spans_of(old_html)[winner_of(spans_of(old_html), id)],
        ) == normalized(
            next_html,
            spans_of(next_html),
            spans_of(next_html)[winner_of(spans_of(next_html), id)],
        ),
    ensures
        boundary_map(old_html)[id].hash == boundary_map(next_html)[id].hash,
{
}

/// A boundary of the next pass whose hash is that of the same boundary in the
/// old pass gets no swap instruction of its own.
pub proof fn law_same_hash_is_not_changed(old: SnapshotView, item: BoundaryItem)
    requires
        entries_map(old.entries).contains_key(item.0),
        entries_map(old.entries)[item.0].hash == item.1.hash,
    ensures
        !is_changed(old, item),
{
}

/// Escaped attribute values hold no `"` and no `<`, so they cannot end the
/// attribute or open a tag.
pub proof fn law_escaped_attribute_is_inert(value: Seq<char>)
    ensures
        forall|i: int|
            0 <= i < escape_attribute(value).len() ==> #[trigger] escape_attribute(value)[i] != '"'
                && escape_attribute(value)[i] != '<',
    decreases value.len(),
{
    if value.len() > 0 {
        law_escaped_attribute_is_inert(value.drop_last());
        let a = escape_attribute(value.drop_last());
        let b = escape_char(value.last());
        assert forall|i: int| 0 <= i < (a + b).len() implies #[trigger] (a + b)[i] != '"' && (a
            + b)[i] != '<' by {
            if i >= a.len() {
                assert((a + b)[i] == b[i - a.len()]);
            }
        }
    }
}

/// Matching only closing markers leaves nothing open and finds no span.
proof fn lemma_match_closing_only(html: Seq<char>, ms: Seq<Marker>)
    requires
        forall|k: int| 0 <= k < ms.len() ==> !(#[trigger] ms[k]).opening,
    ensures
        match_all(html, ms, MatchState { stack: seq![], spans: seq![] }) == (MatchState {
            stack: seq![],
            spans: seq![],
        }),
    decreases ms.len(),
{
    if ms.len() > 0 {
        let st = MatchState { stack: Seq::<Open>::empty(), spans: Seq::<Span>::empty() };
        assert(!ms[0].opening);
        assert(last_open_with(st.stack, marker_id(html, ms[0])) == -1);
        assert(match_step(html, st, ms[0]) == st);
        assert forall|k: int| 0 <= k < ms.drop_first().len() implies !(#[trigger] ms.drop_first()[k]).opening by {
            assert(ms.drop_first()[k] == ms[k + 1]);
        }
        lemma_match_closing_only(html, ms.drop_first());
    }
}

/// Without opening markers, every marker found closes.
proof fn lemma_markers_closing_only(html: Seq<char>, cursor: int)
    requires
        0 <= cursor,
        forall|i: int| !occurs_at(html, start_marker(), i),
    ensures
        forall|k: int|
            0 <= k < markers_from(html, cursor).len() ==> !(#[trigger] markers_from(
                html,
                cursor,
            )[k]).opening,
    decreases html.len() - cursor,
{
    lemma_next_marker(html, cursor);
    if let Some(m) = next_marker(html, cursor) {
        lemma_markers_closing_only(html, marker_end(m));
        let rest = markers_from(html, marker_end(m));
        assert(markers_from(html, cursor) == seq![m] + rest);
        assert forall|k: int| 0 <= k < (seq![m] + rest).len() implies !(#[trigger] (seq![m]
            + rest)[k]).opening by {
            if k > 0 {
                assert((seq![m] + rest)[k] == rest[k - 1]);
            }
        }
    }
}

/// A page without opening markers has no boundaries.
pub proof fn law_page_without_markers_has_no_boundaries(html: Seq<char>)
    requires
        forall|i: int| !occurs_at(html, start_marker(), i),
    ensures
        boundary_map(html) == Map::<Seq<char>, BoundaryView>::empty(),
{
    lemma_markers_closing_only(html, 0);
    lemma_match_closing_only(html, markers_from(html, 0));
    assert(spans_of(html) =~= Seq::<Span>::empty());
    assert(boundary_map(html) =~= Map::<Seq<char>, BoundaryView>::empty());
}

/// Two snapshots of different pages without boundaries reconcile to a swap
/// of the whole document.
pub proof fn law_pages_without_boundaries_swap_the_root(old: SnapshotView, next: SnapshotView)
    requires
        old.entries.len() == 0,
        next.entries.len() == 0,
        old.html != next.html,
    ensures
        reconcile_chunk(old, next) == swap_template_spec(root_id(), next.html),
{
}


/// Decodes the three entities that `escape_attribute` writes, from the
/// front: `&amp;`, `&quot;` and `&lt;` become `&`, `"` and `<`; every other
/// character stands for itself.
pub open spec fn unescape_attribute(s: Seq<char>) -> Seq<char>
    decreases s.len(),
{
    if s.len() == 0 {
        seq![]
    } else if s.len() >= 5 && s.subrange(0, 5) == escape_char('&') {
        seq!['&'] + unescape_attribute(s.subrange(5, s.len() as int))
    } else if s.len() >= 6 && s.subrange(0, 6) == escape_char('"') {
        seq!['"'] + unescape_attribute(s.subrange(6, s.len() as int))
    } else if s.len() >= 4 && s.subrange(0, 4) == escape_char('<') {
        seq!['<'] + unescape_attribute(s.subrange(4, s.len() as int))
    } else {
        seq![s[0]] + unescape_attribute(s.drop_first())
    }
}

/// Escaping works character by character from the front too.
proof fn lemma_escape_front(value: Seq<char>)
    requires
        value.len() > 0,
    ensures
        escape_attribute(value) == escape_char(value[0]) + escape_attribute(value.drop_first()),
    decreases value.len(),
{
    if value.len() == 1 {
        assert(value.drop_first() =~= Seq::<char>::empty());
        assert(value.drop_last() =~= Seq::<char>::empty());
        assert(escape_attribute(value.drop_last()) =~= Seq::<char>::empty());
        assert(escape_char(value[0]) + Seq::<char>::empty() =~= escape_char(value[0]));
    } else {
        let d = value.drop_last();
        lemma_escape_front(d);
        assert(d.drop_first() =~= value.drop_first().drop_last());
        assert(value.drop_first().last() == value.last());
        assert(d[0] == value[0]);
        assert(escape_attribute(value.drop_first()) == escape_attribute(value.drop_first().drop_last())
            + escape_char(value.drop_first().last()));
        assert(escape_attribute(value) =~= escape_char(value[0]) + escape_attribute(
            value.drop_first(),
        ));
    }
}

/// Decoding the entities of an escaped value gives the value back.
pub proof fn law_escape_round_trips(value: Seq<char>)
    ensures
        unescape_attribute(escape_attribute(value)) == value,
    decreases value.len(),
{
    if value.len() > 0 {
        lemma_escape_front(value);
        law_escape_round_trips(value.drop_first());
        let c = value[0];
        let e = escape_char(c);
        let rest = escape_attribute(value.drop_first());
        let s = e + rest;
        if c == '&' {
            assert(s.subrange(0, 5) =~= e);
            assert(s.subrange(5, s.len() as int) =~= rest);
        } else if c == '"' {
            assert(s.subrange(0, 5) != escape_char('&')) by {
                assert(s[1] == 'q');
            }
            assert(s.subrange(0, 6) =~= e);
            assert(s.subrange(6, s.len() as int) =~= rest);
        } else if c == '<' {
            if s.len() >= 5 {
                assert(s.subrange(0, 5) != escape_char('&')) by {
                    assert(s[1] == 'l');
                }
            }
            if s.len() >= 6 {
                assert(s.subrange(0, 6) != escape_char('"')) by {
                    assert(s[1] == 'l');
                }
            }
            assert(s.subrange(0, 4) =~= e);
            assert(s.subrange(4, s.len() as int) =~= rest);
        } else {
            assert(s[0] == c);
            if s.len() >= 5 {
                assert(s.subrange(0, 5)[0] == c);
            }
            if s.len() >= 6 {
                assert(s.subrange(0, 6)[0] == c);
            }
            if s.len() >= 4 {
                assert(s.subrange(0, 4)[0] == c);
            }
            assert(s.drop_first() =~= rest);
        }
        assert(seq![c] + value.drop_first() =~= value);
    }
}

/// A value without `&`, `"` and `<` is written as it is.
pub proof fn law_plain_values_are_not_escaped(value: Seq<char>)
    requires
        forall|i: int| 0 <= i < value.len() ==> #[trigger] value[i] != '&' && value[i] != '"' && value[i] != '<',
    ensures
        escape_attribute(value) == value,
    decreases value.len(),
{
    if value.len() > 0 {
        let d = value.drop_last();
        assert forall|i: int| 0 <= i < d.len() implies #[trigger] d[i] != '&' && d[i] != '"' && d[i] != '<' by {
            assert(d[i] == value[i]);
        }
        law_plain_values_are_not_escaped(d);
        assert(value.last() == value[value.len() - 1]);
        assert(d.push(value.last()) =~= value);
        assert(d + seq![value.last()] =~= value);
    }
}


/// `t` with each occurrence of the non-empty `pat` replaced by `by`, found
/// from the front without overlap, as `str::replace` replaces.
pub open spec fn replace_all(t: Seq<char>, pat: Seq<char>, by: Seq<char>) -> Seq<char>
    decreases t.len(),
{
    if t.len() == 0 || pat.len() == 0 {
        t
    } else if t.len() >= pat.len() && t.subrange(0, pat.len() as int) == pat {
        by + replace_all(t.subrange(pat.len() as int, t.len() as int), pat, by)
    } else {
        seq![t[0]] + replace_all(t.drop_first(), pat, by)
    }
}

/// How `c` stands after the first `k` of the replaces `&lt;`, `&quot;` and
/// `&amp;` that undo escaping.
pub open spec fn stage_char(c: char, k: int) -> Seq<char> {
    if k >= 3 || (k >= 1 && c == '<') || (k >= 2 && c == '"') {
        seq![c]
    } else {
        escape_char(c)
    }
}

/// `v` as it stands after the first `k` replaces.
pub open spec fn stage_text(v: Seq<char>, k: int) -> Seq<char>
    decreases v.len(),
{
    if v.len() == 0 {
        seq![]
    } else {
        stage_char(v[0], k) + stage_text(v.drop_first(), k)
    }
}

/// The character that the replace number `k` gives back.
pub open spec fn decoded_at(k: int) -> char {
    if k == 0 {
        '<'
    } else if k == 1 {
        '"'
    } else {
        '&'
    }
}

/// Text that starts no occurrence of `pat` passes a replace unchanged.
proof fn lemma_replace_pass(u: Seq<char>, t: Seq<char>, pat: Seq<char>, by: Seq<char>)
    requires
        pat.len() >= 2,
        forall|i: int|
            0 <= i < u.len() ==> #[trigger] u[i] != pat[0] || (i + 1 < u.len() && u[i + 1] != pat[1]),
    ensures
        replace_all(u + t, pat, by) == u + replace_all(t, pat, by),
    decreases u.len(),
{
    if u.len() > 0 {
        let w = u + t;
        if w.len() >= pat.len() && w.subrange(0, pat.len() as int) == pat {
            assert(w.subrange(0, pat.len() as int)[0] == w[0]);
            assert(w.subrange(0, pat.len() as int)[1] == w[1]);
            assert(u[0] != pat[0] || (1 < u.len() && u[1] != pat[1]));
        }
        assert(w.drop_first() =~= u.drop_first() + t);
        assert forall|i: int| 0 <= i < u.drop_first().len() implies #[trigger] u.drop_first()[i]
            != pat[0] || (i + 1 < u.drop_first().len() && u.drop_first()[i + 1] != pat[1]) by {
            assert(u.drop_first()[i] == u[i + 1]);
            if i + 1 < u.drop_first().len() {
                assert(u.drop_first()[i + 1] == u[i + 2]);
            }
        }
        lemma_replace_pass(u.drop_first(), t, pat, by);
        assert(seq![u[0]] + (u.drop_first() + replace_all(t, pat, by)) =~= u + replace_all(t, pat, by));
    }
}

/// One replace turns the text after `k` replaces into the text after `k + 1`.
proof fn lemma_replace_stage(v: Seq<char>, k: int)
    requires
        0 <= k < 3,
    ensures
        replace_all(stage_text(v, k), escape_char(decoded_at(k)), seq![decoded_at(k)]) == stage_text(
            v,
            k + 1,
        ),
    decreases v.len(),
{
    if v.len() > 0 {
        let c = v[0];
        let pat = escape_char(decoded_at(k));
        let by = seq![decoded_at(k)];
        let chunk = stage_char(c, k);
        let rest = stage_text(v.drop_first(), k);
        lemma_replace_stage(v.drop_first(), k);
        if c == decoded_at(k) {
            assert(chunk == pat);
            let w = chunk + rest;
            assert(w.subrange(0, pat.len() as int) =~= pat);
            assert(w.subrange(pat.len() as int, w.len() as int) =~= rest);
            assert(stage_char(c, k + 1) == by);
        } else {
            assert(stage_char(c, k + 1) == chunk);
            assert(pat[0] == '&');
            assert forall|i: int| 0 <= i < chunk.len() implies #[trigger] chunk[i] != pat[0] || (i + 1
                < chunk.len() && chunk[i + 1] != pat[1]) by {
                if chunk[i] == '&' {
                    assert(i == 0);
                    assert(chunk.len() >= 4);
                }
            }
            lemma_replace_pass(chunk, rest, pat, by);
        }
    }
}

/// Before any replace, the text is the escaped value; after all three, the
/// value itself.
proof fn lemma_stage_ends(v: Seq<char>)
    ensures
        stage_text(v, 0) == escape_attribute(v),
        stage_text(v, 3) == v,
    decreases v.len(),
{
    if v.len() > 0 {
        lemma_stage_ends(v.drop_first());
        lemma_escape_front(v);
        assert(seq![v[0]] + v.drop_first() =~= v);
    }
}

/// Replacing `&lt;`, then `&quot;`, then `&amp;` in an escaped value gives the
/// value back.
pub proof fn law_escape_undone_by_replaces(value: Seq<char>)
    ensures
        replace_all(
            replace_all(
                replace_all(escape_attribute(value), escape_char('<'), seq!['<']),
                escape_char('"'),
                seq!['"'],
            ),
            escape_char('&'),
            seq!['&'],
        ) == value,
{
    lemma_stage_ends(value);
    lemma_replace_stage(value, 0);
    lemma_replace_stage(value, 1);
    lemma_replace_stage(value, 2);
}


/// When a boundary at the top of the old pass is gone from the next pass,
/// the browser receives the whole next page as a swap of the root.
pub proof fn law_vanished_top_level_boundary_swaps_root(old: SnapshotView, next: SnapshotView, i: int)
    requires
        0 <= i < old.entries.len(),
        old.entries[i].1.parent is None,
        forall|j: int| 0 <= j < next.entries.len() ==> next.entries[j].0 != old.entries[i].0,
    ensures
        reconcile_chunk(old, next) == swap_template_spec("root"@, next.html),
{
    if entries_map(next.entries).contains_key(old.entries[i].0) {
        let j = choose|j: int| 0 <= j < next.entries.len() && next.entries[j].0 == old.entries[i].0;
        assert(next.entries[j].0 != old.entries[i].0);
    }
    assert(root_structure_changed(old, next));
}

/// When a boundary at the top of the next pass is new, the browser receives
/// the whole next page as a swap of the root.
pub proof fn law_new_top_level_boundary_swaps_root(old: SnapshotView, next: SnapshotView, j: int)
    requires
        0 <= j < next.entries.len(),
        next.entries[j].1.parent is None,
        forall|i: int| 0 <= i < old.entries.len() ==> old.entries[i].0 != next.entries[j].0,
    ensures
        reconcile_chunk(old, next) == swap_template_spec("root"@, next.html),
{
    if entries_map(old.entries).contains_key(next.entries[j].0) {
        let i = choose|i: int| 0 <= i < old.entries.len() && old.entries[i].0 == next.entries[j].0;
        assert(old.entries[i].0 != next.entries[j].0);
    }
    assert(root_structure_changed(old, next));
}

} // verus!
