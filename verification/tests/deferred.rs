use topcoat::deferred::{deferred_key, DeferAction, Deferred, DeferredKey, DeferredState, PollOutcome};

#[test]
fn immediately_ready_futures_never_enter_pending() {
    let mut state: DeferredState<u8> = DeferredState::new();
    let key = DeferredKey(7);
    assert_eq!(state.action(key), DeferAction::Poll);
    assert_eq!(state.record_poll(key, PollOutcome::Ready(42)), Deferred::Ready(42));
    assert_eq!(state.action(key), DeferAction::Poll);
    assert_eq!(state.record_poll(key, PollOutcome::Ready(42)), Deferred::Ready(42));
    assert!(!state.has_pending());
    assert!(state.take_futures().is_empty());
}

#[test]
fn yielding_futures_are_registered_as_pending() {
    let mut state: DeferredState<&str> = DeferredState::new();
    let key = DeferredKey(1);
    assert_eq!(
        state.record_poll::<()>(key, PollOutcome::Pending("future")),
        Deferred::Pending
    );
    assert!(state.has_pending());
    assert_eq!(state.action(key), DeferAction::Wait);
    assert_eq!(state.take_futures(), vec!["future"]);
    assert!(state.take_futures().is_empty());
}

#[test]
fn resolved_calls_are_polled_again() {
    let mut state: DeferredState<u32> = DeferredState::new();
    let first = DeferredKey(1);
    let second = DeferredKey(2);
    state.record_poll::<()>(first, PollOutcome::Pending(10));
    state.record_poll::<()>(second, PollOutcome::Pending(20));
    assert_eq!(state.take_futures(), vec![10, 20]);
    state.resolve(first);
    assert_eq!(state.action(first), DeferAction::Poll);
    assert_eq!(state.action(second), DeferAction::Wait);
    assert!(state.has_pending());
    state.resolve(second);
    assert!(!state.has_pending());
}

#[test]
fn keys_mix_the_identity_with_the_site_in_both_halves() {
    assert_eq!(deferred_key(0, 1), DeferredKey((1u128 << 64) | 1));
    assert_eq!(
        deferred_key(0xff, 0x10),
        DeferredKey(0xff ^ (0x10u128 << 64) ^ 0x10)
    );
    assert_eq!(deferred_key(5, 0), DeferredKey(5));
    assert_ne!(deferred_key(9, 3), deferred_key(9, 4));
    assert_ne!(deferred_key(9, 3), deferred_key(8, 3));
}
