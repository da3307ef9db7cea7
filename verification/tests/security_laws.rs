use opendocu::error::CoreError;
use opendocu::events::{collect_step, stream_closed, CollectStep, ProgressEvent};
use opendocu::models::KeyValueSet;
use opendocu::security::{
    Encryptor, FixedWindowRateLimiter, InMemoryRbac, NullEncryptor, RateLimiter, Rbac, Role,
    UnlimitedRateLimiter,
};

#[test]
fn null_encryptor_roundtrips_any_bytes() {
    let e = NullEncryptor;
    let bytes: Vec<u8> = (0u8..=255).collect();
    assert_eq!(e.encrypt(&bytes), bytes);
    assert_eq!(e.decrypt(&e.encrypt(&bytes)), bytes);
    assert!(e.encrypt(b"").is_empty());
}

#[test]
fn rate_limiter_counts_per_window_and_actor() {
    let mut rl = FixedWindowRateLimiter::new(60, 2);
    assert!(rl.check_at("alice", 120).is_ok());
    assert!(rl.check_at("alice", 130).is_ok());
    assert_eq!(rl.check_at("alice", 179), Err("rate limit exceeded".to_string()));
    assert_eq!(rl.check_at("alice", 150), Err("rate limit exceeded".to_string()));
    assert!(rl.check_at("bob", 150).is_ok());
    assert!(rl.check_at("alice", 180).is_ok());
    assert!(rl.check_at("alice", 181).is_ok());
    assert!(rl.check_at("alice", 182).is_err());
}

#[test]
fn rate_limiter_with_zero_limit_refuses_all() {
    let mut rl = FixedWindowRateLimiter::new(10, 0);
    assert!(rl.check_at("carol", 5).is_err());
    assert!(rl.check_at("carol", 50).is_err());
}

#[test]
fn unlimited_rate_limiter_allows_everything() {
    let mut rl = UnlimitedRateLimiter;
    for _ in 0..100 {
        assert!(rl.check("anyone").is_ok());
    }
}

#[test]
fn rbac_roles_accumulate_per_user() {
    let mut rbac = InMemoryRbac::default();
    assert!(!rbac.has_role("ann", Role::Viewer));
    rbac.assign("ann", Role::Viewer);
    rbac.assign("ann", Role::Admin);
    rbac.assign("ben", Role::Editor);
    assert!(rbac.has_role("ann", Role::Viewer));
    assert!(rbac.has_role("ann", Role::Admin));
    assert!(!rbac.has_role("ann", Role::Editor));
    assert!(rbac.has_role("ben", Role::Editor));
    assert!(!rbac.has_role("ben", Role::Viewer));
}

#[test]
fn keyvalue_lookup_finds_first_match() {
    let mut kv = KeyValueSet::default();
    assert!(kv.get("name").is_none());
    kv.insert("Name", "Alice", 900);
    kv.insert("NAME", "Bob", 750);
    assert_eq!(kv.get("nAmE").unwrap().value, "Alice");
    assert_eq!(kv.get("name").unwrap().confidence, 900);
    assert_eq!(kv.fields.len(), 2);
    assert!(kv.get("names").is_none());
}

#[test]
fn collector_decides_on_each_event() {
    assert!(matches!(collect_step(ProgressEvent::Started { total_bytes: 3 }), CollectStep::Continue));
    assert!(matches!(collect_step(ProgressEvent::Done { reduced_json: "{}".into() }), CollectStep::Done(j) if j == "{}"));
    assert!(matches!(
        collect_step(ProgressEvent::Error { message: "boom".into() }),
        CollectStep::Failed(CoreError::InvalidOptions(m)) if m == "boom"
    ));
    assert!(matches!(stream_closed(), CoreError::InvalidOptions(m) if m == "stream closed without Done"));
}
