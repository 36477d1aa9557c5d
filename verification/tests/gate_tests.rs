use card_ratings::gate::RateLimitGate;

#[test]
fn gate_first_sight_passes() {
    let mut gate = RateLimitGate::new(16);
    assert!(gate.permit(&"k".to_string(), 3));
}

#[test]
fn gate_ceiling_rejects_after_limit() {
    let mut gate = RateLimitGate::new(16);
    let key = "ip-mh2-MH2-123-modern".to_string();
    assert!(gate.permit(&key, 3));
    assert!(gate.permit(&key, 3));
    assert!(gate.permit(&key, 3));
    assert!(!gate.permit(&key, 3));
    assert!(!gate.permit(&key, 3));
}

#[test]
fn gate_ceiling_of_one() {
    let mut gate = RateLimitGate::new(4);
    let key = "solo".to_string();
    assert!(gate.permit(&key, 1));
    assert!(!gate.permit(&key, 1));
}

#[test]
fn gate_rejection_leaves_counter_alone() {
    let mut gate = RateLimitGate::new(4);
    let key = "stuck".to_string();
    assert!(gate.permit(&key, 2));
    assert!(gate.permit(&key, 2));
    assert!(!gate.permit(&key, 2));
    assert!(!gate.permit(&key, 2));
    assert!(!gate.permit(&key, 2));
}

#[test]
fn gate_eviction_restarts_counter() {
    // Capacity two; three distinct fingerprints push the oldest one out,
    // and its count starts over on its next visit.
    let mut gate = RateLimitGate::new(2);
    let a = "a".to_string();
    let b = "b".to_string();
    let c = "c".to_string();
    assert!(gate.permit(&a, 2));
    assert!(gate.permit(&b, 2));
    assert!(gate.permit(&c, 2));
    // `a` was least recently used and is gone: its counter restarts at one,
    // so it passes twice more before hitting the ceiling again.
    assert!(gate.permit(&a, 2));
    assert!(gate.permit(&a, 2));
    assert!(!gate.permit(&a, 2));
}

#[test]
fn gate_untouched_keys_keep_their_counts() {
    let mut gate = RateLimitGate::new(8);
    let a = "a".to_string();
    let b = "b".to_string();
    assert!(gate.permit(&a, 2));
    assert!(gate.permit(&a, 2));
    assert!(gate.permit(&b, 2));
    assert!(!gate.permit(&a, 2));
    assert!(gate.permit(&b, 2));
    assert!(!gate.permit(&b, 2));
}
