//! Pages, the layouts that wrap them, and the chunks a streamed page sends
//! after its first response chunk.
use vstd::prelude::*;
use crate::deferred::{spec_has_pending, DeferredEntry, DeferredKey, DeferredState};
use crate::reconcile::{
    parses_to, reconcile_chunk, redirect_template, redirect_template_spec, root_id, swap_template,
    swap_template_spec, Snapshot, SnapshotView, SWAP_SCRIPT,
};

verus! {

#[verifier::external_type_specification]
#[verifier::external_body]
pub struct ExMethod(http::Method);

/// The HTTP methods a page responds to.
#[derive(Debug, Clone)]
pub enum OwnedMethods {
    /// Every method.
    Any,
    /// Only the listed methods.
    List(Vec<http::Method>),
}

/// What a page is: its methods, its path, and its render function.
pub struct PageFnView<R> {
    pub methods: OwnedMethods,
    pub path: Seq<char>,
    pub render: R,
}

/// A page handler that renders a view for a specific URL path.
///
/// The render function `R` takes the request context and the request body.
/// A page serves `GET` unless it declares other methods.
#[derive(Debug, Clone)]
pub struct PageFn<R> {
    methods: OwnedMethods,
    path: String,
    render: R,
}

impl<R> View for PageFn<R> {
    type V = PageFnView<R>;

    closed spec fn view(&self) -> PageFnView<R> {
        PageFnView { methods: self.methods, path: self.path@, render: self.render }
    }
}

impl<R> PageFn<R> {
    /// Creates a page with explicit methods, path, and render function.
    pub fn new(methods: OwnedMethods, path: String, render: R) -> (p: Self)
        ensures
            p@ == (PageFnView { methods, path: path@, render }),
    {
        Self::const_new(methods, path, render)
    }

    /// Creates a page from its parts as they are stored.
    pub fn const_new(methods: OwnedMethods, path: String, render: R) -> (p: Self)
        ensures
            p@ == (PageFnView { methods, path: path@, render }),
    {
        PageFn { methods, path, render }
    }

    /// The HTTP methods this page responds to.
    pub fn methods(&self) -> (r: &OwnedMethods)
        ensures
            *r == self@.methods,
    {
        &self.methods
    }

    /// The URL path this page handles.
    pub fn path(&self) -> (r: &str)
        ensures
            r@ == self@.path,
    {
        self.path.as_str()
    }

    /// Renders the page for a request context and body.
    pub fn render<C, B, O>(&self, cx: C, body: B) -> (r: O) where R: Fn(C, B) -> O
        requires
            call_requires(self@.render, (cx, body)),
        ensures
            call_ensures(self@.render, (cx, body), r),
    {
        (self.render)(cx, body)
    }
}

/// What a layout is: its path prefix and its render function.
pub struct LayoutFnView<L> {
    pub path: Seq<char>,
    pub render: L,
}

/// A layout handler that wraps the pages whose path starts with its path.
///
/// The render function `L` takes the request context and the result of
/// rendering what the layout wraps, and returns the wrapped result.
#[derive(Debug, Clone)]
pub struct LayoutFn<L> {
    path: String,
    render: L,
}

impl<L> View for LayoutFn<L> {
    type V = LayoutFnView<L>;

    closed spec fn view(&self) -> LayoutFnView<L> {
        LayoutFnView { path: self.path@, render: self.render }
    }
}

impl<L> LayoutFn<L> {
    /// Creates a layout with an explicit path and render function.
    pub fn new(path: String, render: L) -> (l: Self)
        ensures
            l@ == (LayoutFnView { path: path@, render }),
    {
        LayoutFn { path, render }
    }

    /// The path prefix this layout applies to.
    pub fn path(&self) -> (r: &str)
        ensures
            r@ == self@.path,
    {
        self.path.as_str()
    }

    /// Renders the layout around the result `slot` of what it wraps.
    pub fn render<C, O>(&self, cx: C, slot: O) -> (r: O) where L: Fn(C, O) -> O
        requires
            call_requires(self@.render, (cx, slot)),
        ensures
            call_ensures(self@.render, (cx, slot), r),
    {
        (self.render)(cx, slot)
    }
}

/// `slots` are the results from `inner` out: `slots[n]` is `inner` and each
/// `slots[k]` is what layout `k` gives around `slots[k + 1]`, so the last
/// (innermost) layout wraps `inner` first and the first (outermost) one wraps
/// last.
pub open spec fn wrapped_by<C, O, L: Fn(C, O) -> O>(
    layouts: Seq<LayoutFnView<L>>,
    cx: C,
    slots: Seq<O>,
) -> bool {
    &&& slots.len() == layouts.len() + 1
    &&& forall|k: int|
        0 <= k < layouts.len() ==> #[trigger] call_ensures(layouts[k].render, (cx, slots[k + 1]), slots[k])
}

/// `out` is what the layouts give around `inner`, innermost first.
pub open spec fn wraps<C, O, L: Fn(C, O) -> O>(
    layouts: Seq<LayoutFnView<L>>,
    cx: C,
    inner: O,
    out: O,
) -> bool {
    exists|slots: Seq<O>|
        #[trigger] wrapped_by(layouts, cx, slots) && slots[layouts.len() as int] == inner && slots[0]
            == out
}

/// What a page with its layouts is.
pub struct PageWithLayoutsView<R, L> {
    pub page: PageFnView<R>,
    pub layouts: Seq<LayoutFnView<L>>,
}

/// A page paired with the layouts that wrap it, ordered from least to most
/// specific (outermost first).
#[derive(Debug, Clone)]
pub struct PageWithLayouts<R, L> {
    page: PageFn<R>,
    layouts: Vec<LayoutFn<L>>,
}

impl<R, L> View for PageWithLayouts<R, L> {
    type V = PageWithLayoutsView<R, L>;

    closed spec fn view(&self) -> PageWithLayoutsView<R, L> {
        PageWithLayoutsView {
            page: self.page@,
            layouts: self.layouts@.map_values(|l: LayoutFn<L>| l@),
        }
    }
}

impl<R, L> PageWithLayouts<R, L> {
    /// Pairs `page` with the `layouts` that wrap it, outermost first.
    pub fn new(page: PageFn<R>, layouts: Vec<LayoutFn<L>>) -> (p: Self)
        ensures
            p@.page == page@,
            p@.layouts == layouts@.map_values(|l: LayoutFn<L>| l@),
    {
        PageWithLayouts { page, layouts }
    }

    /// The page.
    pub fn page(&self) -> (r: &PageFn<R>)
        ensures
            r@ == self@.page,
    {
        &self.page
    }

    /// The layouts, outermost first.
    pub fn layouts(&self) -> (r: &Vec<LayoutFn<L>>)
        ensures
            r@.map_values(|l: LayoutFn<L>| l@) == self@.layouts,
    {
        &self.layouts
    }

    /// The HTTP methods of the page.
    pub fn methods(&self) -> (r: &OwnedMethods)
        ensures
            *r == self@.page.methods,
    {
        self.page.methods()
    }

    /// The URL path of the page.
    pub fn path(&self) -> (r: &str)
        ensures
            r@ == self@.page.path,
    {
        self.page.path()
    }

    /// Renders the page, then each layout around it from the innermost out.
    pub fn render_view<C: Copy, B, O>(&self, cx: C, body: B) -> (r: O) where
        R: Fn(C, B) -> O,
        L: Fn(C, O) -> O,

        requires
            call_requires(self@.page.render, (cx, body)),
            forall|i: int, slot: O|
                0 <= i < self@.layouts.len() ==> #[trigger] call_requires(
                    self@.layouts[i].render,
                    (cx, slot),
                ),
        ensures
            exists|page_view: O|
                call_ensures(self@.page.render, (cx, body), page_view) && wraps(
                    self@.layouts,
                    cx,
                    page_view,
                    r,
                ),
    {
        let ghost layouts = self@.layouts;
        let ghost n = layouts.len() as int;
        let mut slot = self.page.render(cx, body);
        let ghost page_view = slot;
        let mut i = self.layouts.len();
        let ghost mut slots: Seq<O> = seq![slot];
        while i > 0
            invariant
                i <= self.layouts@.len(),
                layouts == self@.layouts,
                n == layouts.len(),
                n == self.layouts@.len(),
                call_ensures(self@.page.render, (cx, body), page_view),
                forall|k: int, s: O|
                    0 <= k < layouts.len() ==> #[trigger] call_requires(layouts[k].render, (cx, s)),
                slots.len() == n - i + 1,
                slots[0] == slot,
                slots[n - i] == page_view,
                forall|k: int|
                    #![trigger layouts[k]]
                    i <= k < n ==> call_ensures(layouts[k].render, (cx, slots[k - i + 1]), slots[k - i]),
            decreases i,
        {
            let ghost before = slot;
            let ghost old_slots = slots;
            assert(self.layouts@[i - 1]@ == layouts[i - 1]);
            slot = self.layouts[i - 1].render(cx, slot);
            proof {
                slots = seq![slot] + old_slots;
                assert forall|k: int|
                    #![trigger layouts[k]]
                    i - 1 <= k < n implies call_ensures(
                    layouts[k].render,
                    (cx, slots[k - (i - 1) + 1]),
                    slots[k - (i - 1)],
                ) by {
                    if k > i - 1 {
                        assert(slots[k - (i - 1)] == old_slots[k - i]);
                        assert(slots[k - (i - 1) + 1] == old_slots[k - i + 1]);
                    }
                }
            }
            i = i - 1;
        }
        assert forall|k: int|
            0 <= k < layouts.len() implies #[trigger] call_ensures(
            layouts[k].render,
            (cx, slots[k + 1]),
            slots[k],
        ) by {
            assert(call_ensures(layouts[k].render, (cx, slots[k - 0 + 1]), slots[k - 0]));
        }
        assert(wrapped_by(layouts, cx, slots));
        assert(slots[n - 0] == page_view);
        assert(wraps(layouts, cx, page_view, slot));
        slot
    }
}

// ---------------------------------------------------------------------------
// Streaming
// ---------------------------------------------------------------------------

/// Why a later render pass of a streamed page produced no view.
#[derive(Debug, Clone)]
pub enum PassError {
    /// The page redirected; the location when it is a valid string.
    Redirect(Option<String>),
    /// The page failed; the body of the error response when it could be read.
    Failure(Option<String>),
}

/// The body used when an error response cannot be read.
pub open spec fn internal_error_body() -> Seq<char> {
    "internal server error"@
}

/// The chunk that reports a failed later pass: a navigation for a redirect
/// (a root swap with the internal-error body when the location is not a
/// valid string), a root swap with the error response's body otherwise.
pub open spec fn error_chunk_spec(error: PassError) -> Seq<char> {
    match error {
        PassError::Redirect(Some(location)) => redirect_template_spec(location@),
        PassError::Redirect(None) => swap_template_spec(root_id(), internal_error_body()),
        PassError::Failure(Some(body)) => swap_template_spec(root_id(), body@),
        PassError::Failure(None) => swap_template_spec(root_id(), internal_error_body()),
    }
}

/// The first chunk of a streamed page: its initial HTML and the swap script.
pub open spec fn first_chunk_spec(html: Seq<char>) -> Seq<char> {
    html + SWAP_SCRIPT@
}

/// The chunk one later pass produces from the snapshot `old`: the
/// reconciliation with the snapshot `next` of its page when it rendered, the
/// error chunk when it failed.
pub open spec fn pass_chunk_spec(
    old: SnapshotView,
    next: SnapshotView,
    pass: Result<String, PassError>,
) -> Seq<char> {
    match pass {
        Ok(_) => reconcile_chunk(old, next),
        Err(error) => error_chunk_spec(error),
    }
}

/// What a streamed page is: the boundaries of the last pass sent to the
/// browser, and how many registered futures are still running.
pub struct StreamView {
    pub snapshot: SnapshotView,
    pub in_flight: nat,
}

/// A page whose response stays open while deferred work runs: it remembers
/// the boundaries of the last pass sent to the browser and counts the
/// deferred futures still running.
pub struct StreamingPage {
    snapshot: Snapshot,
    in_flight: usize,
}

impl View for StreamingPage {
    type V = StreamView;

    closed spec fn view(&self) -> StreamView {
        StreamView { snapshot: self.snapshot@, in_flight: self.in_flight as nat }
    }
}

impl StreamingPage {
    /// Starts streaming a page whose first pass rendered `html` and left
    /// deferred work pending. Returns the stream state, the first chunk to
    /// send, and the futures registered so far, which the stream now counts
    /// as running and the deferred state no longer holds.
    pub fn start<F>(html: String, deferred: &mut DeferredState<F>) -> (r: (StreamingPage, String, Vec<F>))
        ensures
            parses_to(r.0@.snapshot, html@),
            r.1@ == first_chunk_spec(html@),
            r.2@ == old(deferred)@.futures,
            r.0@.in_flight == r.2@.len(),
            final(deferred)@.futures == Seq::<F>::empty(),
            final(deferred)@.entries == old(deferred)@.entries,
    {
        let mut first = html.clone();
        first.append(SWAP_SCRIPT);
        let snapshot = Snapshot::parse(html);
        let futures = deferred.take_futures();
        (StreamingPage { snapshot, in_flight: futures.len() }, first, futures)
    }

    /// Whether the stream is over: no registered future is still running.
    pub fn is_done(&self) -> (r: bool)
        ensures
            r == (self@.in_flight == 0),
    {
        self.in_flight == 0
    }

    /// How many registered futures are still running.
    pub fn running(&self) -> (r: usize)
        ensures
            r == self@.in_flight,
    {
        self.in_flight
    }

    /// A running future completed for the call `key`: the call is resolved,
    /// so the pass about to render sees it ready, and one future fewer runs.
    pub fn begin_pass<F>(&mut self, deferred: &mut DeferredState<F>, key: DeferredKey)
        requires
            old(self)@.in_flight > 0,
        ensures
            final(self)@.snapshot == old(self)@.snapshot,
            final(self)@.in_flight == old(self)@.in_flight - 1,
            final(deferred)@.entries == old(deferred)@.entries.insert(key.0, DeferredEntry::Ready),
            final(deferred)@.futures == old(deferred)@.futures,
    {
        deferred.resolve(key);
        self.in_flight = self.in_flight - 1;
    }

    /// Takes the outcome of the pass rendered after `begin_pass`. Returns the
    /// chunk to send, or `None` when the browser needs nothing from this
    /// pass, and the futures that the pass registered, which now count as
    /// running.
    pub fn end_pass<F>(&mut self, deferred: &mut DeferredState<F>, pass: Result<String, PassError>) -> (r: (
        Option<String>,
        Vec<F>,
    ))
        requires
            old(self)@.in_flight + old(deferred)@.futures.len() <= usize::MAX,
        ensures
            match pass {
                Ok(html) => parses_to(final(self)@.snapshot, html@),
                Err(_) => final(self)@.snapshot == old(self)@.snapshot,
            },
            match r.0 {
                Some(chunk) => {
                    &&& chunk@ == pass_chunk_spec(old(self)@.snapshot, final(self)@.snapshot, pass)
                    &&& chunk@.len() > 0
                },
                None => pass_chunk_spec(old(self)@.snapshot, final(self)@.snapshot, pass).len() == 0,
            },
            r.1@ == old(deferred)@.futures,
            final(self)@.in_flight == old(self)@.in_flight + r.1@.len(),
            final(deferred)@.futures == Seq::<F>::empty(),
            final(deferred)@.entries == old(deferred)@.entries,
    {
        let chunk = self.next_chunk(pass);
        let futures = deferred.take_futures();
        self.in_flight = self.in_flight + futures.len();
        if chunk.as_str().is_empty() {
            (None, futures)
        } else {
            (Some(chunk), futures)
        }
    }

    /// Takes the outcome of a later render pass and returns the chunk it
    /// gives (empty when the browser needs nothing). A rendered pass becomes
    /// the remembered snapshot; a failed one leaves it as it was.
    pub fn next_chunk(&mut self, pass: Result<String, PassError>) -> (chunk: String)
        ensures
            match pass {
                Ok(html) => parses_to(final(self)@.snapshot, html@),
                Err(_) => final(self)@.snapshot == old(self)@.snapshot,
            },
            chunk@ == pass_chunk_spec(old(self)@.snapshot, final(self)@.snapshot, pass),
            final(self)@.in_flight == old(self)@.in_flight,
    {
        match pass {
            Ok(html) => {
                let next = Snapshot::parse(html);
                let (snapshot, chunk) = self.snapshot.reconcile(next);
                self.snapshot = snapshot;
                chunk
            },
            Err(error) => error_chunk(&error),
        }
    }
}

/// How a page answers its first render pass.
pub enum FirstResponse<F> {
    /// No deferred call is pending: the page is sent whole.
    Whole(String),
    /// Some deferred call is pending: the stream, its first chunk, and the
    /// futures registered so far.
    Streamed(StreamingPage, String, Vec<F>),
}

/// Answers the first render pass of a page that rendered `html`: whole when
/// no deferred call is pending, streamed otherwise.
pub fn first_response<F>(html: String, deferred: &mut DeferredState<F>) -> (r: FirstResponse<F>)
    ensures
        match r {
            FirstResponse::Whole(body) => {
                &&& !spec_has_pending(old(deferred)@.entries)
                &&& body@ == html@
                &&& final(deferred)@ == old(deferred)@
            },
            FirstResponse::Streamed(stream, first, futures) => {
                &&& spec_has_pending(old(deferred)@.entries)
                &&& parses_to(stream@.snapshot, html@)
                &&& first@ == first_chunk_spec(html@)
                &&& futures@ == old(deferred)@.futures
                &&& stream@.in_flight == futures@.len()
                &&& final(deferred)@.futures == Seq::<F>::empty()
                &&& final(deferred)@.entries == old(deferred)@.entries
            },
        },
{
    if !deferred.has_pending() {
        return FirstResponse::Whole(html);
    }
    let (stream, first, futures) = StreamingPage::start(html, deferred);
    FirstResponse::Streamed(stream, first, futures)
}

/// The chunk that reports a failed later render pass.
pub fn error_chunk(error: &PassError) -> (r: String)
    ensures
        r@ == error_chunk_spec(*error),
{
    match error {
        PassError::Redirect(Some(location)) => redirect_template(location.as_str()),
        PassError::Redirect(None) => swap_template("root", "internal server error"),
        PassError::Failure(Some(body)) => swap_template("root", body.as_str()),
        PassError::Failure(None) => swap_template("root", "internal server error"),
    }
}


/// A later pass that redirects sends the browser to exactly that location,
/// whatever it is; one that fails with a readable error page swaps the root
/// for that page; otherwise the root shows the internal-error text.
pub proof fn law_late_errors_are_reported(location: String, body: String)
    ensures
        error_chunk_spec(PassError::Redirect(Some(location))) == redirect_template_spec(location@),
        error_chunk_spec(PassError::Failure(Some(body))) == swap_template_spec("root"@, body@),
        error_chunk_spec(PassError::Redirect(None)) == swap_template_spec(
            "root"@,
            "internal server error"@,
        ),
        error_chunk_spec(PassError::Failure(None)) == swap_template_spec(
            "root"@,
            "internal server error"@,
        ),
{
}


} // verus!
