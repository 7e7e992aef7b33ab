use hydra::auth::{
    apply_upstream, cache_decision, decide, remembered, sha256_hex, AuthVerdict, CacheEntry,
    CacheSource, Verdict,
};

fn hex(b: &[u8]) -> String {
    b.iter().map(|x| format!("{x:02x}")).collect()
}

#[test]
fn digest_of_known_texts() {
    assert_eq!(
        hex(&sha256_hex(b"abc")),
        "ba7816bf8f01cfea414140de5dae2223b00361a396177a9cb410ff61f20015ad"
    );
    assert_eq!(
        hex(&sha256_hex(b"")),
        "e3b0c44298fc1c149afbf4c8996fb92427ae41e4649b934ca495991b7852b855"
    );
    assert_ne!(sha256_hex(b"key-1"), sha256_hex(b"key-2"));
}

#[test]
fn labels() {
    let allowed = AuthVerdict::Allowed {
        source: CacheSource::Hit,
    };
    assert_eq!((allowed.label(), allowed.source_label()), ("allowed", "hit"));
    let denied = AuthVerdict::Denied {
        status: 503,
        reason: "auth_upstream_unavailable",
        source: CacheSource::Miss,
    };
    assert_eq!((denied.label(), denied.source_label()), ("denied", "miss"));
    assert!(denied.is_upstream_failure());
    let local = AuthVerdict::Denied {
        status: 401,
        reason: "denied",
        source: CacheSource::Local,
    };
    assert_eq!(local.source_label(), "local");
    assert!(!local.is_upstream_failure());
    assert!(!allowed.is_upstream_failure());
    assert_eq!(denied.clone(), denied);
}

#[test]
fn remembered_decision_counts_until_its_time() {
    let e = CacheEntry { allowed: true, until: 100 };
    assert_eq!(cache_decision(Some(e), 99), Verdict::Hit(true));
    assert_eq!(cache_decision(Some(e), 100), Verdict::Miss);
    let d = CacheEntry { allowed: false, until: 100 };
    assert_eq!(cache_decision(Some(d), 0), Verdict::Hit(false));
    assert_eq!(cache_decision(None, 0), Verdict::Miss);
    assert_eq!(
        decide(true, CacheSource::Hit),
        AuthVerdict::Allowed { source: CacheSource::Hit }
    );
    assert_eq!(
        decide(false, CacheSource::Hit),
        AuthVerdict::Denied { status: 401, reason: "auth_denied", source: CacheSource::Hit }
    );
}

#[test]
fn answers_of_the_auth_service() {
    let miss = CacheSource::Miss;
    assert_eq!(apply_upstream(Some(200)), AuthVerdict::Allowed { source: miss });
    assert_eq!(apply_upstream(Some(204)), AuthVerdict::Allowed { source: miss });
    let denied = AuthVerdict::Denied { status: 401, reason: "auth_denied", source: miss };
    assert_eq!(apply_upstream(Some(401)), denied);
    assert_eq!(apply_upstream(Some(403)), denied);
    assert_eq!(apply_upstream(Some(302)), denied);
    assert!(apply_upstream(Some(500)).is_upstream_failure());
    assert!(apply_upstream(None).is_upstream_failure());
}

#[test]
fn verdicts_are_remembered_for_their_time() {
    let allowed = remembered(&apply_upstream(Some(200)), 1_000);
    assert_eq!(allowed, Some(CacheEntry { allowed: true, until: 301_000 }));
    assert_eq!(cache_decision(allowed, 300_999), Verdict::Hit(true));
    assert_eq!(cache_decision(allowed, 301_000), Verdict::Miss);
    let denied = remembered(&apply_upstream(Some(403)), 1_000);
    assert_eq!(denied, Some(CacheEntry { allowed: false, until: 31_000 }));
    assert_eq!(cache_decision(denied, 30_999), Verdict::Hit(false));
    assert_eq!(remembered(&apply_upstream(None), 0), None);
    assert_eq!(remembered(&apply_upstream(Some(502)), 0), None);
    let late = remembered(&apply_upstream(Some(200)), u64::MAX - 1);
    assert_eq!(late, Some(CacheEntry { allowed: true, until: u64::MAX }));
}
