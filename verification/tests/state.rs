use llmkeyrotator::state::{AppState, Provider, Stats};

fn provider(name: &str) -> Provider {
    Provider {
        name: name.to_string(),
        base_url: format!("https://{}/v1/", name),
        model: format!("{}-model", name),
        api_key: format!("{}-key", name),
    }
}

fn state(names: &[&str]) -> AppState {
    AppState::new(names.iter().map(|n| provider(n)).collect(), String::new(), false, false)
}

fn current(state: &AppState) -> Option<&str> {
    state.get_next_available_provider().map(|p| p.name.as_str())
}

#[test]
fn nothing_is_counted_at_the_start() {
    let stats = Stats::new(2);
    assert_eq!(stats.total_requests, 0);
    assert_eq!(stats.total_errors, 0);
    assert_eq!(stats.total_rotations, 0);
    assert_eq!(stats.provider_failures, vec![0, 0]);
    assert!(stats.skipped_providers.is_empty());
    let state = state(&["a", "b"]);
    assert_eq!(state.current_index, 0);
    assert_eq!(state.stats, stats);
    assert_eq!(current(&state), Some("a"));
    assert_eq!(state.next_available_index(), Some(0));
}

#[test]
fn rotation_goes_round() {
    let mut state = state(&["a", "b", "c"]);
    let mut seen = Vec::new();
    for _ in 0..4 {
        seen.push(current(&state).unwrap().to_string());
        state.rotate_provider();
    }
    assert_eq!(seen, vec!["a", "b", "c", "a"]);
    assert_eq!(state.stats.total_rotations, 4);
    assert_eq!(state.current_index, 4);
}

#[test]
fn the_index_starts_again_after_the_greatest() {
    let mut state = state(&["a", "b", "c"]);
    state.current_index = usize::MAX;
    assert_eq!(state.next_available_index(), Some(usize::MAX % 3));
    state.rotate_provider();
    assert_eq!(state.current_index, 0);
    assert_eq!(current(&state), Some("a"));
}

#[test]
fn the_search_goes_on_past_the_greatest_index() {
    let mut state = state(&["a", "b", "c"]);
    state.current_index = usize::MAX;
    let at = usize::MAX % 3;
    let name = state.providers[at].name.clone();
    state.stats.skipped_providers.push(name);
    assert_eq!(state.next_available_index(), Some((at + 1) % 3));
}

#[test]
fn failures_are_recorded_by_name() {
    let mut state = state(&["a", "b", "a"]);
    state.record_failure("b");
    state.record_failure("a");
    state.record_failure("a");
    state.record_failure("nobody");
    assert_eq!(state.stats.provider_failures, vec![2, 1, 0]);
}

#[test]
fn requests_and_errors_are_counted() {
    let mut state = state(&["a"]);
    state.count_request();
    state.count_request();
    state.count_error();
    assert_eq!(state.stats.total_requests, 2);
    assert_eq!(state.stats.total_errors, 1);
    state.stats.total_requests = usize::MAX;
    state.count_request();
    assert_eq!(state.stats.total_requests, 0);
}

#[test]
fn a_skipped_provider_is_never_asked_again() {
    let mut state = state(&["a", "b", "c"]);
    state.skip_provider_permanently("b");
    assert_eq!(state.current_index, 0);
    for _ in 0..6 {
        assert_ne!(current(&state), Some("b"));
        state.rotate_provider();
    }
}

#[test]
fn skipping_the_current_provider_moves_on_once() {
    let mut state = state(&["a", "b", "c"]);
    state.skip_provider_permanently("a");
    assert_eq!(state.current_index, 1);
    assert_eq!(current(&state), Some("b"));
    state.skip_provider_permanently("a");
    assert_eq!(state.current_index, 1);
    assert_eq!(state.stats.skipped_providers, vec!["a".to_string()]);
}

#[test]
fn the_last_one_left_is_asked_wherever_rotation_stands() {
    let mut state = state(&["a", "b", "c"]);
    state.skip_provider_permanently("a");
    state.skip_provider_permanently("c");
    for _ in 0..5 {
        assert_eq!(current(&state), Some("b"));
        state.rotate_provider();
    }
}

#[test]
fn no_provider_is_asked_when_all_are_skipped() {
    let mut state = state(&["a", "b", "a"]);
    state.skip_provider_permanently("a");
    state.skip_provider_permanently("b");
    assert_eq!(current(&state), None);
    assert_eq!(state.next_available_index(), None);
}
