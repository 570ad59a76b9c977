use llmkeyrotator::headers::Header;
use llmkeyrotator::reply::ErrorResponse;
use llmkeyrotator::state::{AppState, Provider};

fn state(names: &[&str], key: &str) -> AppState {
    let providers = names
        .iter()
        .map(|name| Provider {
            name: name.to_string(),
            base_url: String::new(),
            model: String::new(),
            api_key: String::new(),
        })
        .collect();
    AppState::new(providers, key.to_string(), false, false)
}

fn headers(authorization: &str) -> Vec<Header> {
    vec![
        header("accept", "x"),
        header("authorization", authorization),
        header("authorization", "Bearer secret"),
    ]
}

fn header(name: &str, value: &str) -> Header {
    Header { name: name.to_string(), value: Some(value.to_string()) }
}

#[test]
fn without_a_key_everything_passes() {
    let state = state(&["a"], "");
    assert_eq!(state.auth_check(&vec![]), Ok(()));
    assert_eq!(state.auth_check(&headers("Bearer x")), Ok(()));
}

#[test]
fn the_key_is_asked_for_as_a_bearer_token() {
    let state = state(&["a"], "secret");
    assert_eq!(state.auth_check(&headers("Bearer secret")), Ok(()));
    for shown in [
        "",
        "secret",
        "Bearer ",
        "Bearer wrong",
        "bearer secret",
        "Bearer secret ",
        "Bearer Bearer secret",
    ] {
        assert_eq!(state.auth_check(&headers(shown)), Err(ErrorResponse::unauthorized()));
    }
    assert_eq!(state.auth_check(&vec![]), Err(ErrorResponse::unauthorized()));
    let unreadable = vec![Header { name: "authorization".to_string(), value: None }];
    assert_eq!(state.auth_check(&unreadable), Err(ErrorResponse::unauthorized()));
}

#[test]
fn a_key_that_looks_like_a_header_is_taken_as_a_token() {
    let state = state(&["a"], "Bearer x");
    assert_eq!(state.auth_check(&headers("Bearer Bearer x")), Ok(()));
    assert_eq!(state.auth_check(&headers("Bearer x")), Err(ErrorResponse::unauthorized()));
}

#[test]
fn errors_say_what_went_wrong() {
    let cases = [
        (ErrorResponse::unauthorized(), 401, r#"{"error":"Unauthorized"}"#),
        (ErrorResponse::all_providers_failed(), 502, r#"{"error":"All providers failed"}"#),
        (ErrorResponse::body_too_large(), 413, r#"{"error":"Request body too large"}"#),
    ];
    for (response, status, body) in cases {
        assert_eq!(response.status, status);
        assert_eq!(response.body().to_text(), body);
    }
}

#[test]
fn health_names_the_provider_that_is_asked_next() {
    let mut state = state(&["a", "b"], "");
    assert_eq!(
        state.health().to_text(),
        r#"{"current_provider":"a","providers":2,"status":"ok","total_errors":0,"total_requests":0,"total_rotations":0}"#
    );
    state.count_request();
    state.count_error();
    state.rotate_provider();
    assert_eq!(
        state.health().to_text(),
        r#"{"current_provider":"b","providers":2,"status":"ok","total_errors":1,"total_requests":1,"total_rotations":1}"#
    );
    state.skip_provider_permanently("a");
    state.skip_provider_permanently("b");
    assert_eq!(state.health().str_at("current_provider"), Some("none"));
}

#[test]
fn stats_report_the_failures_by_name() {
    let mut state = state(&["b", "a", "b"], "");
    state.record_failure("a");
    state.record_failure("a");
    state.record_failure("b");
    assert_eq!(
        state.stats().to_text(),
        r#"{"provider_failures":{"a":2,"b":0},"total_errors":0,"total_requests":0,"total_rotations":0}"#
    );
}

#[test]
fn only_what_passes_is_counted() {
    let mut state = state(&["a"], "secret");
    assert_eq!(state.let_in(&headers("Bearer secret")), Ok(()));
    assert_eq!(state.let_in(&vec![]), Err(ErrorResponse::unauthorized()));
    assert_eq!(state.stats.total_requests, 1);
}
