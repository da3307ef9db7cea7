use opendocu::security::{
    AuditEvent, AuditLogger, Encryptor, FixedWindowRateLimiter, InMemoryAuditLogger, InMemoryRbac,
    NullEncryptor, RateLimiter, Rbac, Role,
};

#[test]
fn null_encryptor_roundtrips() {
    let e = NullEncryptor;
    let ct = e.encrypt(b"hello");
    assert_eq!(e.decrypt(&ct), b"hello");
}

#[test]
fn rate_limiter_blocks_after_max() {
    let mut rl = FixedWindowRateLimiter::new(60, 2);
    assert!(rl.check("alice").is_ok());
    assert!(rl.check("alice").is_ok());
    assert!(rl.check("alice").is_err());
}

#[test]
fn rbac_assigns_and_checks() {
    let mut rbac = InMemoryRbac::new();
    rbac.assign("bob", Role::Editor);
    assert!(rbac.has_role("bob", Role::Editor));
    assert!(!rbac.has_role("bob", Role::Admin));
}

#[test]
fn audit_logger_records() {
    let mut log = InMemoryAuditLogger::new();
    log.record(AuditEvent {
        actor: "alice".into(),
        action: "reduce".into(),
        resource: "doc1".into(),
        timestamp_unix: 0,
    });
    assert_eq!(log.events.len(), 1);
}
