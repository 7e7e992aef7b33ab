use hydra::limit::{let_in, tally, window_span, MatchCtx, RoleWindows, SlidingWindow, Tally, Windows};
use hydra::model::LimitRole;

fn role(limit_count: Option<i64>, limit_token: Option<i64>, window: &str) -> LimitRole {
    LimitRole {
        id: "r".to_string(),
        name: "r".to_string(),
        matching_key: None,
        matching_model: None,
        matching_tenant: None,
        matching_provider: None,
        limit_count,
        limit_token,
        window: window.to_string(),
        enabled: true,
        created_at: "t".to_string(),
    }
}

#[test]
fn windows_have_their_lengths() {
    assert_eq!(window_span("m"), Some(60_000));
    assert_eq!(window_span("h"), Some(3_600_000));
    assert_eq!(window_span("d"), Some(86_400_000));
    assert_eq!(window_span("M"), None);
    assert_eq!(window_span(""), None);
}

#[test]
fn window_slides() {
    let mut w = SlidingWindow::new(100);
    assert!(!w.reached(0, 1));
    w.add(10, 1);
    w.add(50, 1);
    assert!(w.reached(60, 2));
    assert!(w.reached(109, 2));
    assert!(!w.reached(110, 2));
    assert!(w.reached(110, 1));
    assert!(!w.reached(150, 1));
    w.add(120, 1);
    assert_eq!(w.events.len(), 2);
}

#[test]
fn large_amounts_do_not_wrap() {
    let mut w = SlidingWindow::new(u64::MAX);
    w.add(0, u64::MAX);
    w.add(1, u64::MAX);
    assert!(w.reached(2, i64::MAX));
    assert!(w.reached(u64::MAX, 1));
}

#[test]
fn limit_is_never_exceeded_in_any_window() {
    let mut w = SlidingWindow::new(100);
    let mut passed: Vec<u64> = Vec::new();
    for now in (0..1000u64).step_by(7) {
        if !w.reached(now, 5) {
            w.add(now, 1);
            passed.push(now);
        }
    }
    for now in 0..1100u64 {
        let held = passed.iter().filter(|t| **t <= now && **t + 100 > now).count();
        assert!(held <= 5);
    }
    assert!(passed.len() > 40);
}

#[test]
fn role_is_exhausted_by_requests_or_tokens() {
    let r = role(Some(2), Some(1000), "m");
    let mut w = RoleWindows::new(&r).expect("windows");
    assert!(!w.exhausted(&r, 0));
    w.requests.add(0, 1);
    w.requests.add(1, 1);
    assert!(w.exhausted(&r, 2));
    assert!(!w.exhausted(&r, 60_001));
    w.tokens.add(60_001, 999);
    assert!(!w.exhausted(&r, 60_002));
    w.tokens.add(60_002, 1);
    assert!(w.exhausted(&r, 60_003));
    let open = role(None, None, "m");
    assert!(!w.exhausted(&open, 60_003));
    assert!(RoleWindows::new(&role(Some(1), None, "week")).is_none());
}

fn named(id: &str, tenant: Option<&str>, limit_count: Option<i64>, limit_token: Option<i64>) -> LimitRole {
    LimitRole {
        id: id.to_string(),
        matching_tenant: tenant.map(str::to_string),
        ..role(limit_count, limit_token, "m")
    }
}

fn request(tenant: &str) -> MatchCtx<'_> {
    MatchCtx { api_key: None, model: None, tenant: Some(tenant), provider: None }
}

fn requests_held(windows: &Windows, id: &str) -> usize {
    windows.get(id).map_or(0, |w| w.requests.events.len())
}

#[test]
fn request_counts_for_every_role_that_applies() {
    let roles = [
        named("all", None, Some(3), None),
        named("t1", Some("t1"), Some(2), None),
        named("t2", Some("t2"), Some(1), None),
    ];
    let mut windows = Windows::new();
    assert_eq!(let_in(&mut windows, &roles, &request("t1"), 0), None);
    assert_eq!(requests_held(&windows, "all"), 1);
    assert_eq!(requests_held(&windows, "t1"), 1);
    assert!(windows.get("t2").is_none());
    assert_eq!(let_in(&mut windows, &roles, &request("t1"), 1), None);
    assert_eq!(let_in(&mut windows, &roles, &request("t1"), 2), Some(1));
    assert_eq!(requests_held(&windows, "all"), 2);
    assert_eq!(requests_held(&windows, "t1"), 2);
    assert_eq!(let_in(&mut windows, &roles, &request("t2"), 3), None);
    assert_eq!(let_in(&mut windows, &roles, &request("t2"), 4), Some(0));
    assert_eq!(let_in(&mut windows, &roles, &request("t3"), 5), Some(0));
    assert_eq!(let_in(&mut windows, &roles, &request("t1"), 60_002), None);
    assert_eq!(requests_held(&windows, "t1"), 1);
}

#[test]
fn tokens_use_a_role_up() {
    let roles = [named("r", Some("t1"), None, Some(100))];
    let mut windows = Windows::new();
    assert_eq!(let_in(&mut windows, &roles, &request("t1"), 0), None);
    tally(&mut windows, &roles, &request("t2"), Tally::Tokens(100), 1);
    assert_eq!(let_in(&mut windows, &roles, &request("t1"), 2), None);
    tally(&mut windows, &roles, &request("t1"), Tally::Tokens(100), 3);
    assert_eq!(let_in(&mut windows, &roles, &request("t1"), 4), Some(0));
    assert_eq!(let_in(&mut windows, &roles, &request("t2"), 4), None);
    assert_eq!(let_in(&mut windows, &roles, &request("t1"), 60_003), None);
}

#[test]
fn role_without_a_known_window_limits_nothing() {
    let odd = LimitRole { window: "week".to_string(), ..named("r", None, Some(0), None) };
    let mut windows = Windows::new();
    assert_eq!(let_in(&mut windows, &[odd], &request("t1"), 0), None);
    assert!(windows.get("r").is_none());
    let closed = named("r", None, Some(0), None);
    assert_eq!(let_in(&mut windows, &[closed], &request("t1"), 0), Some(0));
    assert_eq!(let_in(&mut windows, &[], &request("t1"), 0), None);
}
