use tto::state::{now, State};

#[test]
fn extend_never_shortens() {
    let mut s = State::default();
    s.extend(now() + 3600, &["chat".into()]);
    let first = s.until;
    s.extend(now() + 60, &["local".into()]);
    assert_eq!(s.until, first);
    assert_eq!(s.categories, vec!["chat".to_string(), "local".to_string()]);
    s.extend(now() + 7200, &[]);
    assert!(s.until > first);
}

#[test]
fn extend_at_replaces_an_expired_block() {
    let mut s = State { until: 100, categories: vec!["chat".into()], since: 10 };
    s.extend_at(200, 500, &["local".into()]);
    assert_eq!(s.until, 500);
    assert_eq!(s.categories, vec!["local".to_string()]);
    assert_eq!(s.since, 200);
}

#[test]
fn extend_at_merges_without_repeats() {
    let mut s = State { until: 1000, categories: vec!["chat".into()], since: 10 };
    s.extend_at(200, 500, &["chat".into(), "local".into(), "local".into()]);
    assert_eq!(s.until, 1000);
    assert_eq!(s.categories, vec!["chat".to_string(), "local".to_string()]);
    assert_eq!(s.since, 10);
}

#[test]
fn remaining_and_active_at() {
    let s = State { until: 1000, categories: vec![], since: 0 };
    assert!(s.active_at(999));
    assert!(!s.active_at(1000));
    assert_eq!(s.remaining_at(400), 600);
    assert_eq!(s.remaining_at(2000), 0);
    assert!(!State::default().active());
    assert!(State::default().is_empty_state());
}
