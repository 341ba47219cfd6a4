//! The record of deferred work that a streaming page keeps across its render
//! passes.
//!
//! Each deferred call is identified by a key. On its first pass the call's
//! future is polled once: if it completes, the pass sees
//! [`Deferred::Ready`]; if it yields, the call is registered as pending, its
//! future is kept for the page to drive, and the pass sees
//! [`Deferred::Pending`]. Later passes see `Pending` for that call until the
//! page resolves it; then the call is polled again.
use vstd::prelude::*;
use std::collections::HashMap;

verus! {

/// The current value of deferred work.
#[derive(Debug, Clone, PartialEq, Eq)]
pub enum Deferred<T> {
    /// The work is still running. Render placeholder content for this pass.
    Pending,
    /// The work completed and its value is available to this render pass.
    Ready(T),
}

/// Identifies one deferred call site within a page.
#[derive(Debug, Clone, Copy, PartialEq, Eq, Hash)]
pub struct DeferredKey(pub u128);

/// What is known of a deferred call.
#[derive(Debug, Clone, Copy, PartialEq, Eq, Structural)]
pub enum DeferredEntry {
    /// Its future yielded and has not been resolved yet.
    Pending,
    /// It completed, or the page resolved it.
    Ready,
}

/// What a first poll of a deferred call's future gave.
pub enum PollOutcome<T, F> {
    /// The future completed with this value.
    Ready(T),
    /// The future yielded; this is what drives it to completion.
    Pending(F),
}

/// What a render pass must do for a deferred call.
#[derive(Debug, Clone, Copy, PartialEq, Eq, Structural)]
pub enum DeferAction {
    /// The call is still pending: render the placeholder without polling.
    Wait,
    /// Poll the call's future once.
    Poll,
}

/// The deferred calls of one page and the futures that still have to run.
pub struct DeferredState<F> {
    entries: HashMap<u128, DeferredEntry>,
    futures: Vec<F>,
}

/// The abstract state: each known call by key, and the registered futures in
/// the order they were registered.
pub struct DeferredStateView<F> {
    pub entries: Map<u128, DeferredEntry>,
    pub futures: Seq<F>,
}

impl<F> View for DeferredState<F> {
    type V = DeferredStateView<F>;

    closed spec fn view(&self) -> DeferredStateView<F> {
        DeferredStateView { entries: self.entries@, futures: self.futures@ }
    }
}

/// Some known call is pending.
pub open spec fn spec_has_pending(entries: Map<u128, DeferredEntry>) -> bool {
    exists|k: u128| entries.contains_key(k) && entries[k] == DeferredEntry::Pending
}

/// The action for the call `key`: wait while it is pending, poll otherwise.
pub open spec fn spec_action(entries: Map<u128, DeferredEntry>, key: DeferredKey) -> DeferAction {
    if entries.contains_key(key.0) && entries[key.0] == DeferredEntry::Pending {
        DeferAction::Wait
    } else {
        DeferAction::Poll
    }
}

impl<F> DeferredState<F> {
    /// A state with no deferred call.
    pub fn new() -> (s: Self)
        ensures
            s@.entries == Map::<u128, DeferredEntry>::empty(),
            s@.futures == Seq::<F>::empty(),
    {
        DeferredState { entries: HashMap::new(), futures: Vec::new() }
    }

    /// Whether some deferred call is still pending.
    pub fn has_pending(&self) -> (r: bool)
        ensures
            r == spec_has_pending(self@.entries),
    {
        let ghost m = self.entries@;
        for (k, v) in it: self.entries.iter()
            invariant
                m == self.entries@,
                forall|key: u128|
                    #[trigger] m.contains_key(key) && m[key] == DeferredEntry::Pending ==> exists|t: int|
                        it.index() <= t < it.seq().len() && it.seq()[t] == (&key, &m[key]),
        {
            if *v == DeferredEntry::Pending {
                assert(m.contains_key(*k) && m[*k] == DeferredEntry::Pending);
                return true;
            }
            assert forall|key: u128|
                #[trigger] m.contains_key(key) && m[key] == DeferredEntry::Pending implies exists|t: int|
                    it.index() + 1 <= t < it.seq().len() && it.seq()[t] == (&key, &m[key]) by {
                let t = choose|t: int|
                    it.index() <= t < it.seq().len() && it.seq()[t] == (&key, &m[key]);
                assert(t != it.index());
            }
        }
        false
    }

    /// How many futures were registered since they were last handed out.
    pub fn registered(&self) -> (r: usize)
        ensures
            r == self@.futures.len(),
    {
        self.futures.len()
    }

    /// Hands out the futures registered since the last call, in registration
    /// order, and forgets them.
    pub fn take_futures(&mut self) -> (r: Vec<F>)
        ensures
            r@ == old(self)@.futures,
            final(self)@.futures == Seq::<F>::empty(),
            final(self)@.entries == old(self)@.entries,
    {
        let mut taken: Vec<F> = Vec::new();
        std::mem::swap(&mut taken, &mut self.futures);
        taken
    }

    /// Records that the call `key` completed: the next pass polls it again.
    pub fn resolve(&mut self, key: DeferredKey)
        ensures
            final(self)@.entries == old(self)@.entries.insert(key.0, DeferredEntry::Ready),
            final(self)@.futures == old(self)@.futures,
    {
        self.entries.insert(key.0, DeferredEntry::Ready);
    }

    /// What the current pass must do for the call `key`.
    pub fn action(&self, key: DeferredKey) -> (r: DeferAction)
        ensures
            r == spec_action(self@.entries, key),
    {
        match self.entries.get(&key.0) {
            Some(entry) => {
                if *entry == DeferredEntry::Pending {
                    DeferAction::Wait
                } else {
                    DeferAction::Poll
                }
            },
            None => DeferAction::Poll,
        }
    }

    /// Records the outcome of polling the call `key` once and gives the value
    /// the pass sees: a completed call is ready; a yielding one is registered
    /// as pending and its future kept.
    pub fn record_poll<T>(&mut self, key: DeferredKey, outcome: PollOutcome<T, F>) -> (r: Deferred<T>)
        ensures
            match outcome {
                PollOutcome::Ready(value) => {
                    &&& r == Deferred::Ready(value)
                    &&& final(self)@.entries == old(self)@.entries.insert(key.0, DeferredEntry::Ready)
                    &&& final(self)@.futures == old(self)@.futures
                },
                PollOutcome::Pending(future) => {
                    &&& r == Deferred::<T>::Pending
                    &&& final(self)@.entries == old(self)@.entries.insert(key.0, DeferredEntry::Pending)
                    &&& final(self)@.futures == old(self)@.futures.push(future)
                },
            },
    {
        match outcome {
            PollOutcome::Ready(value) => {
                self.entries.insert(key.0, DeferredEntry::Ready);
                Deferred::Ready(value)
            },
            PollOutcome::Pending(future) => {
                self.entries.insert(key.0, DeferredEntry::Pending);
                self.futures.push(future);
                Deferred::Pending
            },
        }
    }
}

/// The key of a deferred call: the identity hash of the enclosing component,
/// mixed with the hash of the call's source location in both halves.
pub open spec fn key_of(identity: u128, site: u64) -> u128 {
    identity ^ ((site as u128) << 64u128) ^ (site as u128)
}

/// The key of the deferred call at `site` within the component `identity`.
pub fn deferred_key(identity: u128, site: u64) -> (k: DeferredKey)
    ensures
        k.0 == key_of(identity, site),
{
    let wide = site as u128;
    DeferredKey(identity ^ (wide << 64u128) ^ wide)
}

/// Within one component, calls at different sites get different keys; at
/// one site, different components get different keys.
pub proof fn law_keys_tell_calls_apart(identity: u128, other_identity: u128, site: u64, other_site: u64)
    ensures
        site != other_site ==> key_of(identity, site) != key_of(identity, other_site),
        identity != other_identity ==> key_of(identity, site) != key_of(other_identity, site),
{
    let a = site as u128;
    let b = other_site as u128;
    assert(a < 0x1_0000_0000_0000_0000u128 && b < 0x1_0000_0000_0000_0000u128);
    assert(a != b ==> identity ^ (a << 64u128) ^ a != identity ^ (b << 64u128) ^ b) by (bit_vector)
        requires
            a < 0x1_0000_0000_0000_0000u128,
            b < 0x1_0000_0000_0000_0000u128,
    ;
    assert(identity != other_identity ==> identity ^ (a << 64u128) ^ a != other_identity ^ (a
        << 64u128) ^ a) by (bit_vector);
}

/// A call whose poll yielded waits on every later pass until it is resolved;
/// after that it is polled again. Other calls are not affected.
pub proof fn law_pending_until_resolved(
    entries: Map<u128, DeferredEntry>,
    key: DeferredKey,
    other: DeferredKey,
)
    requires
        other.0 != key.0,
    ensures
        spec_action(entries.insert(key.0, DeferredEntry::Pending), key) == DeferAction::Wait,
        spec_action(
            entries.insert(key.0, DeferredEntry::Pending).insert(key.0, DeferredEntry::Ready),
            key,
        ) == DeferAction::Poll,
        spec_action(entries.insert(key.0, DeferredEntry::Pending), other) == spec_action(
            entries,
            other,
        ),
        spec_action(entries.insert(key.0, DeferredEntry::Ready), other) == spec_action(
            entries,
            other,
        ),
{
}

/// A call that completes on its first poll never makes the page pending.
pub proof fn law_ready_calls_never_enter_pending(entries: Map<u128, DeferredEntry>, key: DeferredKey)
    requires
        !spec_has_pending(entries),
    ensures
        !spec_has_pending(entries.insert(key.0, DeferredEntry::Ready)),
        spec_action(entries.insert(key.0, DeferredEntry::Ready), key) == DeferAction::Poll,
{
    let m = entries.insert(key.0, DeferredEntry::Ready);
    assert forall|k: u128| m.contains_key(k) implies m[k] != DeferredEntry::Pending by {
        if k != key.0 {
            assert(entries.contains_key(k));
        }
    }
}

/// A call whose poll yielded makes the page pending until it is resolved;
/// resolving every pending call ends that.
pub proof fn law_pending_calls_keep_the_page_open(entries: Map<u128, DeferredEntry>, key: DeferredKey)
    ensures
        spec_has_pending(entries.insert(key.0, DeferredEntry::Pending)),
        (forall|k: u128|
            entries.contains_key(k) && entries[k] == DeferredEntry::Pending ==> k == key.0)
            ==> !spec_has_pending(
            entries.insert(key.0, DeferredEntry::Pending).insert(key.0, DeferredEntry::Ready),
        ),
{
    let m = entries.insert(key.0, DeferredEntry::Pending);
    assert(m.contains_key(key.0) && m[key.0] == DeferredEntry::Pending);
    if forall|k: u128|
        entries.contains_key(k) && entries[k] == DeferredEntry::Pending ==> k == key.0 {
        let r = m.insert(key.0, DeferredEntry::Ready);
        assert forall|k: u128| r.contains_key(k) implies r[k] != DeferredEntry::Pending by {
            if k != key.0 {
                assert(entries.contains_key(k));
            }
        }
    }
}


/// A page that made no deferred call has nothing pending.
pub proof fn law_no_calls_nothing_pending()
    ensures
        !spec_has_pending(Map::<u128, DeferredEntry>::empty()),
{
}

/// Something is pending exactly when some recorded call is pending: calls
/// that completed or were resolved keep nothing open.
pub proof fn law_pending_means_a_pending_call(entries: Map<u128, DeferredEntry>)
    ensures
        spec_has_pending(entries) <==> exists|k: u128|
            entries.contains_key(k) && entries[k] == DeferredEntry::Pending,
        (forall|k: u128| entries.contains_key(k) ==> entries[k] == DeferredEntry::Ready)
            ==> !spec_has_pending(entries),
{
}

/// A pass waits on a call only while the call is recorded as pending: a
/// call seen for the first time, or one that completed or was resolved, is
/// polled.
pub proof fn law_only_pending_calls_wait(entries: Map<u128, DeferredEntry>, key: DeferredKey)
    ensures
        spec_action(entries, key) == DeferAction::Wait <==> (entries.contains_key(key.0)
            && entries[key.0] == DeferredEntry::Pending),
        !entries.contains_key(key.0) ==> spec_action(entries, key) == DeferAction::Poll,
        spec_action(Map::<u128, DeferredEntry>::empty(), key) == DeferAction::Poll,
{
}

} // verus!
