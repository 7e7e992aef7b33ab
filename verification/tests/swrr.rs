use std::collections::{HashMap, HashSet};

use hydra::model::Candidate;
use hydra::swrr::{order, order_fits, SwrrState};

fn cand(id: &str, weight: i32) -> Candidate {
    Candidate {
        provider_id: id.into(),
        endpoint: format!("https://{id}.example.com"),
        weight,
    }
}

#[test]
fn swrr_single_candidate_always_picked() {
    let mut cands = vec![cand("only", 5)];
    let mut state = SwrrState::default();
    for _ in 0..5 {
        order(&mut cands, &mut state);
        assert_eq!(
            cands[0].provider_id, "only",
            "lone candidate always selected"
        );
    }
}

#[test]
fn swrr_proportional_distribution() {
    let mut cands = vec![cand("a", 3), cand("b", 1)];
    let mut state = SwrrState::default();
    let mut counts: HashMap<String, u32> = HashMap::new();
    for _ in 0..8 {
        order(&mut cands, &mut state);
        *counts.entry(cands[0].provider_id.clone()).or_insert(0) += 1;
    }
    assert_eq!(counts.get("a").copied(), Some(6), "weight-3 ⇒ 6 of 8");
    assert_eq!(counts.get("b").copied(), Some(2), "weight-1 ⇒ 2 of 8");
}

#[test]
fn swrr_state_advances() {
    let mut cands = vec![cand("a", 3), cand("b", 1)];
    let mut state = SwrrState::default();
    order(&mut cands, &mut state);
    assert_eq!(cands[0].provider_id, "a");
    assert_eq!(state.current_weights.get("a").copied(), Some(-1));
    assert_eq!(state.current_weights.get("b").copied(), Some(1));
    order(&mut cands, &mut state);
    assert_eq!(cands[0].provider_id, "a");
    assert_eq!(state.current_weights.get("a").copied(), Some(-2));
    assert_eq!(state.current_weights.get("b").copied(), Some(2));
    order(&mut cands, &mut state);
    assert_eq!(cands[0].provider_id, "b");
    assert_eq!(state.current_weights.get("a").copied(), Some(1));
    assert_eq!(state.current_weights.get("b").copied(), Some(-1));
}

#[test]
fn swrr_state_keyed_by_tenant_model() {
    let mk = || vec![cand("a", 1), cand("b", 1)];
    let mut s1 = SwrrState::default();
    let s2 = SwrrState::default();
    let mut c1 = mk();
    order(&mut c1, &mut s1);
    assert!(
        s2.current_weights.is_empty(),
        "an independent state is not mutated by ordering against s1"
    );
    assert!(!s1.current_weights.is_empty());
}

#[test]
fn swrr_order_preserves_set() {
    let mut cands = vec![cand("a", 2), cand("b", 1), cand("c", 1)];
    let original: HashSet<String> = cands.iter().map(|c| c.provider_id.clone()).collect();
    let mut state = SwrrState::default();
    order(&mut cands, &mut state);
    let after: HashSet<String> = cands.iter().map(|c| c.provider_id.clone()).collect();
    assert_eq!(after.len(), 3);
    assert_eq!(original, after, "order reorders only — never drops");
}

#[test]
fn swrr_failover_does_not_reuse() {
    let mut cands = vec![cand("a", 3), cand("b", 1), cand("c", 1)];
    let mut state = SwrrState::default();
    order(&mut cands, &mut state);

    let mut seen: HashSet<String> = HashSet::new();
    for cand in &cands {
        assert!(
            seen.insert(cand.provider_id.clone()),
            "failover must try each candidate at most once (no swrr reuse)"
        );
    }
    assert_eq!(
        seen.len(),
        cands.len(),
        "every candidate reachable via cursor"
    );
}

#[test]
fn swrr_empty_slice_noop() {
    let mut cands: Vec<Candidate> = vec![];
    let mut state = SwrrState::default();
    order(&mut cands, &mut state);
    assert!(cands.is_empty());
    assert!(state.current_weights.is_empty());
}

#[test]
fn swrr_unknown_candidate_seeded_at_zero() {
    let mut cands = vec![cand("a", 1), cand("b", 1)];
    let mut state = SwrrState::default();
    order(&mut cands, &mut state);
    assert_eq!(state.current_weights.get("a").copied(), Some(-1));
    assert_eq!(state.current_weights.get("b").copied(), Some(1));
}

#[test]
fn full_cycle_returns_to_zero() {
    let weights = [("a", 5), ("b", 2), ("c", 1)];
    let mut state = SwrrState::default();
    let mut counts: HashMap<String, i32> = HashMap::new();
    for round in 0..8 {
        let mut cands: Vec<Candidate> = weights.iter().map(|(i, w)| cand(i, *w)).collect();
        cands.rotate_left(round % 3);
        assert!(order_fits(&cands, &state));
        order(&mut cands, &mut state);
        *counts.entry(cands[0].provider_id.clone()).or_insert(0) += 1;
    }
    for (id, w) in weights {
        assert_eq!(counts.get(id).copied(), Some(w));
        assert_eq!(state.current_weights.get(id).copied(), Some(0));
    }
}

#[test]
fn picked_moves_to_the_front_and_the_rest_keep_their_order() {
    let mut cands = vec![cand("a", 1), cand("b", 1), cand("c", 3), cand("d", 1)];
    let mut state = SwrrState::default();
    order(&mut cands, &mut state);
    let ids: Vec<&str> = cands.iter().map(|c| c.provider_id.as_str()).collect();
    assert_eq!(ids, ["c", "a", "b", "d"]);
    assert_eq!(state.current_weights.get("c").copied(), Some(-3));
}

#[test]
fn weightless_candidates_change_nothing() {
    let mut cands = vec![cand("a", 0), cand("b", -1)];
    let mut state = SwrrState::default();
    order(&mut cands, &mut state);
    assert_eq!(cands[0].provider_id, "a");
    assert!(state.current_weights.is_empty());
}

#[test]
fn provider_listed_twice_gains_both_weights() {
    let mut cands = vec![cand("a", 1), cand("b", 2), cand("a", 3)];
    let mut state = SwrrState::default();
    order(&mut cands, &mut state);
    assert_eq!(state.current_weights.get("a").copied(), Some(-2));
    assert_eq!(state.current_weights.get("b").copied(), Some(2));
}

#[test]
fn sums_out_of_range_are_told() {
    let mut state = SwrrState::default();
    assert!(order_fits(&[cand("a", i32::MAX)], &state));
    assert!(!order_fits(&[cand("a", i32::MAX), cand("b", 1)], &state));
    state.current_weights.insert("a".to_string(), 2);
    assert!(!order_fits(&[cand("a", i32::MAX)], &state));
    assert!(order_fits(&[cand("b", i32::MAX)], &state));
    state.current_weights.insert("c".to_string(), i32::MIN);
    assert!(order_fits(&[cand("c", 1)], &state));
    assert!(order_fits(&[], &state));
}
