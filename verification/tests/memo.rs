use topcoat::memo::{MemoClaim, MemoSlot, MemoTable};

fn ready<V: Clone, S>(slot: Option<&MemoSlot<V, S>>) -> Option<V> {
    match slot {
        Some(MemoSlot::Ready(value)) => Some(value.clone()),
        _ => None,
    }
}

#[test]
fn caches_completed_values_across_calls() {
    let mut table: MemoTable<&str, i32, &str> = MemoTable::new();
    let mut loads = 0;
    // The first call misses and starts its load.
    assert!(table.lookup(&"one").is_none());
    loads += 1;
    assert!(table.start("one", "load 42"));
    assert!(table.finish(&"one", 42));
    let first = ready(table.lookup(&"one")).unwrap();
    // The second call finds the value and never runs its own load (99).
    let second = match table.lookup(&"one") {
        Some(MemoSlot::Ready(value)) => *value,
        _ => {
            loads += 1;
            99
        }
    };
    assert_eq!((first, second), (42, 42));
    assert_eq!(loads, 1);
    assert_eq!(table.len(), 1);
}

#[test]
fn keys_cache_independently() {
    let mut table: MemoTable<&str, i32, ()> = MemoTable::new();
    assert!(table.start("two", ()));
    assert!(table.start("three", ()));
    assert!(table.finish(&"two", 2));
    assert!(table.finish(&"three", 3));
    assert_eq!(ready(table.lookup(&"two")), Some(2));
    assert_eq!(ready(table.lookup(&"three")), Some(3));
}

#[test]
fn concurrent_misses_share_the_in_flight_load() {
    let mut table: MemoTable<(), i32, u32> = MemoTable::new();
    // The first caller misses and starts load number 1.
    assert!(table.lookup(&()).is_none());
    assert!(table.start((), 1));
    // The second caller arrives while it runs and joins it.
    match table.lookup(&()) {
        Some(MemoSlot::Loading(load)) => assert_eq!(*load, 1),
        _ => panic!("the second caller should join the running load"),
    }
    assert!(table.finish(&(), 7));
    assert_eq!(ready(table.lookup(&())), Some(7));
    assert_eq!(table.len(), 1);
}

#[test]
fn finishing_an_unknown_key_changes_nothing() {
    let mut table: MemoTable<u64, u64, u64> = MemoTable::new();
    assert!(table.start(1, 10));
    assert!(!table.finish(&2, 5));
    assert_eq!(table.find(&2), None);
    assert_eq!(table.find(&1), Some(0));
    match table.slot(0) {
        MemoSlot::Loading(load) => assert_eq!(*load, 10),
        MemoSlot::Ready(_) => panic!("the load of 1 has not finished"),
    }
}

#[test]
fn a_key_is_started_once() {
    let mut table: MemoTable<u64, u64, u64> = MemoTable::new();
    assert!(table.start(4, 1));
    assert!(!table.start(4, 2));
    assert_eq!(table.len(), 1);
    assert_eq!(table.find(&4), Some(0));
    match table.slot(0) {
        MemoSlot::Loading(load) => assert_eq!(*load, 1),
        MemoSlot::Ready(_) => panic!("the load of 4 has not finished"),
    }
    assert!(table.finish(&4, 9));
    assert_eq!(ready(table.lookup(&4)), Some(9));
    assert!(!table.start(4, 3));
    assert_eq!(ready(table.lookup(&4)), Some(9));
}

#[test]
fn one_claim_takes_joins_or_starts() {
    let mut table: MemoTable<&str, u32, &str> = MemoTable::new();
    assert_eq!(table.claim("k", "first load"), MemoClaim::Started);
    assert_eq!(table.claim("k", "second load"), MemoClaim::Join(0));
    match table.slot(0) {
        MemoSlot::Loading(load) => assert_eq!(*load, "first load"),
        MemoSlot::Ready(_) => panic!("the load is still running"),
    }
    assert!(table.finish(&"k", 5));
    assert_eq!(table.claim("k", "third load"), MemoClaim::Cached(0));
    assert_eq!(ready(table.lookup(&"k")), Some(5));
    assert_eq!(table.claim("other", "load"), MemoClaim::Started);
    assert_eq!(table.len(), 2);
}
