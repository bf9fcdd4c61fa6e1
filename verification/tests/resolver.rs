use components::cdc::resolver::Resolver;

#[test]
fn resolve_returns_hint_without_locks() {
    let mut r = Resolver::new();
    assert_eq!(r.resolve(100), 100);
    assert_eq!(r.resolved_ts(), 100);
}

#[test]
fn resolve_is_one_below_the_oldest_lock() {
    let mut r = Resolver::new();
    r.track_lock(30);
    r.track_lock(20);
    r.track_lock(40);
    assert_eq!(r.oldest_lock(), Some(20));
    // The hint plays no part while a lock is outstanding.
    assert_eq!(r.resolve(1000), 19);
    assert_eq!(r.resolve(5), 19);
}

#[test]
fn locks_are_counted_not_just_noted() {
    let mut r = Resolver::new();
    r.track_lock(10);
    r.track_lock(10);
    assert_eq!(r.lock_count(10), 2);
    assert!(r.untrack_lock(10));
    // One lock at 10 is still outstanding: the barrier stays.
    assert_eq!(r.lock_count(10), 1);
    assert_eq!(r.resolve(50), 9);
    assert!(r.untrack_lock(10));
    assert_eq!(r.lock_count(10), 0);
    assert_eq!(r.len(), 0);
    assert_eq!(r.resolve(50), 50);
}

#[test]
fn untrack_of_an_unknown_lock_changes_nothing() {
    let mut r = Resolver::new();
    r.track_lock(7);
    assert!(!r.untrack_lock(8));
    assert_eq!(r.len(), 1);
    assert_eq!(r.lock_count(7), 1);
}

#[test]
fn resolve_never_goes_back() {
    let mut r = Resolver::new();
    assert_eq!(r.resolve(100), 100);
    // A lock below the watermark cannot pull it down.
    r.track_lock(50);
    assert_eq!(r.resolve(200), 100);
    // Nor can a smaller hint.
    assert!(r.untrack_lock(50));
    assert_eq!(r.resolve(60), 100);
    assert_eq!(r.resolve(150), 150);
    assert_eq!(r.resolved_ts(), 150);
}

#[test]
fn a_lock_at_zero_resolves_to_zero() {
    let mut r = Resolver::new();
    r.track_lock(0);
    assert_eq!(r.oldest_lock(), Some(0));
    assert_eq!(r.resolve(10), 0);
}

#[test]
fn oldest_lock_of_an_empty_resolver_is_none() {
    let r = Resolver::new();
    assert_eq!(r.oldest_lock(), None);
    assert_eq!(r.len(), 0);
    assert_eq!(r.resolved_ts(), 0);
}
