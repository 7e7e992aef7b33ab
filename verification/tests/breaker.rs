use hydra::breaker::{Breaker, BreakerConfig, BreakerView};

#[test]
fn trips_at_the_threshold() {
    let mut b = Breaker::new(BreakerConfig::new(3));
    b.on_failure("p");
    b.on_failure("p");
    assert!(!b.is_dead("p"));
    assert_eq!(b.fail_count("p"), 2);
    b.on_failure("p");
    assert!(b.is_dead("p"));
    b.on_failure("p");
    assert!(b.is_dead("p"));
    assert_eq!(b.fail_count("p"), 4);
}

#[test]
fn default_threshold_is_five() {
    let mut b = Breaker::default();
    assert_eq!(BreakerConfig::default(), BreakerConfig::new(5));
    for _ in 0..4 {
        b.on_failure("p");
    }
    assert!(!b.is_dead("p"));
    b.on_failure("p");
    assert!(b.is_dead("p"));
}

#[test]
fn success_starts_the_count_anew() {
    let mut b = Breaker::new(BreakerConfig::new(2));
    b.on_failure("p");
    b.on_success("p");
    b.on_failure("p");
    assert!(!b.is_dead("p"));
    b.on_failure("p");
    assert!(b.is_dead("p"));
    b.on_success("p");
    assert!(!b.is_dead("p"));
    assert_eq!(b.fail_count("p"), 0);
}

#[test]
fn providers_do_not_share_a_count() {
    let mut b = Breaker::new(BreakerConfig::new(2));
    b.on_failure("a");
    b.on_failure("b");
    b.on_failure("a");
    b.on_success("b");
    assert!(b.is_dead("a"));
    assert!(!b.is_dead("b"));
    assert!(!b.is_dead("unheard-of"));
}

#[test]
fn threshold_of_zero_trips_at_the_first_failure() {
    let mut b = Breaker::new(BreakerConfig::new(0));
    assert!(!b.is_dead("p"));
    b.on_failure("p");
    assert!(b.is_dead("p"));
}

#[test]
fn routing_sees_the_dead() {
    let mut b = Breaker::new(BreakerConfig::new(1));
    b.on_failure("p");
    let view: Box<dyn BreakerView> = Box::new(b);
    assert!(view.is_dead("p"));
    assert!(!view.is_dead("q"));
}
