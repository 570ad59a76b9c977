use llmkeyrotator::exchange::{Action, Event, Exchange, Route};
use llmkeyrotator::forward::{
    anthropic_bodies, anthropic_url, bearer, body_for_model, catch_all_url, is_streaming_request,
    openai_url, outgoing_request, passes_header, set_model, Incoming, Outgoing,
};
use llmkeyrotator::headers::{text_of_header, Header};
use llmkeyrotator::json::Json;
use llmkeyrotator::state::{AppState, Provider};

fn json(text: &str) -> Json {
    Json::parse(text).unwrap()
}

#[test]
fn streams_are_asked_for_by_a_flag() {
    assert!(is_streaming_request(&json(r#"{"stream":true}"#)));
    for text in [r#"{"stream":false}"#, r#"{"stream":"true"}"#, r#"{"stream":1}"#, "{}", "[]"] {
        assert!(!is_streaming_request(&json(text)));
    }
}

#[test]
fn the_base_and_the_path_make_the_address() {
    let gemini = "https://generativelanguage.googleapis.com/v1beta/openai/";
    let groq = "https://api.groq.com/openai/v1";
    assert_eq!(
        openai_url(gemini, "/v1/chat/completions"),
        "https://generativelanguage.googleapis.com/v1beta/openai/chat/completions"
    );
    assert_eq!(openai_url(groq, "/v1/models"), "https://api.groq.com/openai/v1/models");
    assert_eq!(openai_url("h//", "/other"), "h/other");
    assert_eq!(anthropic_url(groq), "https://api.groq.com/openai/v1/chat/completions");
    assert_eq!(anthropic_url("h//"), "h/chat/completions");
    assert_eq!(catch_all_url(groq, "/v1/x"), "https://api.groq.com/openai/v1/x");
    assert_eq!(catch_all_url(groq, "/anthropic/x"), "https://api.groq.com/openai/v1/x");
    assert_eq!(catch_all_url("h", "/v1/anthropic/x"), "h/anthropic/x");
    assert_eq!(catch_all_url("h", "/x/v1"), "h/x/v1");
}

#[test]
fn the_key_goes_into_the_header() {
    assert_eq!(bearer("gsk_1"), "Bearer gsk_1");
    assert_eq!(bearer(""), "Bearer ");
}

#[test]
fn the_model_is_always_the_providers() {
    let mut body = json(r#"{"model":"mine","stream":true}"#);
    set_model(&mut body, "theirs");
    assert_eq!(body.to_text(), r#"{"model":"theirs","stream":true}"#);
    let mut body = Json::Null;
    set_model(&mut body, "theirs");
    assert_eq!(body.to_text(), r#"{"model":"theirs"}"#);
}

#[test]
fn other_bodies_are_sent_as_they_came() {
    let raw = b"not json \xff".to_vec();
    assert_eq!(body_for_model(None, &raw, "m"), raw);
    let raw = b"{ \"model\": \"x\", \"k\": 1 }".to_vec();
    let parsed = Json::parse_bytes(&raw).unwrap();
    assert_eq!(body_for_model(Some(&parsed), &raw, "m"), b"{\"k\":1,\"model\":\"m\"}".to_vec());
}

#[test]
fn an_anthropic_request_has_a_plain_and_a_cached_body() {
    let body = r#"{"model":"c","system":"s","messages":[{"role":"user","content":"hi"}]}"#;
    let expected = r#"{"messages":[{"content":"s","role":"system"},{"content":"hi","role":"user"}],"model":"c"}"#;
    let (plain, cached) = anthropic_bodies(json(body), false, false).unwrap();
    assert_eq!(plain.to_text(), expected);
    assert_eq!(cached, None);
    let (plain, cached) = anthropic_bodies(json(body), false, true).unwrap();
    assert_eq!(plain.to_text(), expected);
    assert_eq!(cached.unwrap().to_text(), expected);
    let (plain, cached) = anthropic_bodies(json(body), true, true).unwrap();
    assert_ne!(plain.to_text(), expected);
    assert_eq!(cached.unwrap().to_text(), plain.to_text());
}

#[test]
fn there_is_no_body_where_a_hint_or_a_mark_has_no_place() {
    assert_eq!(anthropic_bodies(json("[]"), true, false), None);
    assert!(anthropic_bodies(json("[]"), false, true).is_some());
    let body = r#"{"system":["s"]}"#;
    assert_eq!(anthropic_bodies(json(body), false, true), None);
    assert!(anthropic_bodies(json(body), false, false).is_some());
    // The hint is put behind the block that bears no mark.
    assert!(anthropic_bodies(json(body), true, true).is_some());
}

#[test]
fn length_and_encoding_are_not_handed_on() {
    assert!(passes_header("content-type"));
    assert!(passes_header("x-request-id"));
    assert!(!passes_header("content-length"));
    assert!(!passes_header("transfer-encoding"));
}

fn state() -> AppState {
    let provider = |name: &str| Provider {
        name: name.to_string(),
        base_url: format!("http://{}/", name),
        model: format!("m{}", name),
        api_key: format!("k{}", name),
    };
    AppState::new(vec![provider("a"), provider("b")], String::new(), false, false)
}

fn outgoing(method: &str, url: &str, key: &str, content_type: &str, body: &[u8]) -> Outgoing {
    Outgoing {
        method: method.to_string(),
        url: url.to_string(),
        authorization: format!("Bearer {}", key),
        content_type: content_type.to_string(),
        body: body.to_vec(),
    }
}

fn header(name: &str, value: &str) -> Header {
    Header { name: name.to_string(), value: Some(value.to_string()) }
}

#[test]
fn each_request_bears_the_key_and_the_model_of_its_provider() {
    let mut state = state();
    let incoming =
        Incoming::openai("/v1/chat/completions".to_string(), json(r#"{"model":"x","k":1}"#), false);
    assert_eq!(incoming.route(), Route::OpenAi);
    let (mut exchange, _) =
        Exchange::begin(&state, incoming.route(), incoming.has_cached_body());
    assert!(incoming.is_sendable());
    assert_eq!(
        outgoing_request(&exchange, &state, &incoming),
        outgoing(
            "POST",
            "http://a/chat/completions",
            "ka",
            "application/json",
            b"{\"k\":1,\"model\":\"ma\"}"
        )
    );
    assert_eq!(exchange.advance(&mut state, Event::TimedOut), Action::Send);
    assert_eq!(
        outgoing_request(&exchange, &state, &incoming),
        outgoing(
            "POST",
            "http://b/chat/completions",
            "kb",
            "application/json",
            b"{\"k\":1,\"model\":\"mb\"}"
        )
    );
}

#[test]
fn the_marked_body_is_sent_until_it_is_refused() {
    let state = state();
    let incoming = Incoming::Anthropic {
        plain: json(r#"{"is":"plain"}"#),
        cached: Some(json(r#"{"is":"cached"}"#)),
    };
    assert_eq!(incoming.route(), Route::Anthropic);
    assert!(incoming.has_cached_body());
    let (mut exchange, _) = Exchange::begin(&state, Route::Anthropic, true);
    assert_eq!(
        outgoing_request(&exchange, &state, &incoming),
        outgoing(
            "POST",
            "http://a/chat/completions",
            "ka",
            "application/json",
            b"{\"is\":\"cached\",\"model\":\"ma\"}"
        )
    );
    exchange.with_cache = false;
    assert_eq!(
        outgoing_request(&exchange, &state, &incoming).body,
        b"{\"is\":\"plain\",\"model\":\"ma\"}"
    );
}

#[test]
fn of_the_clients_headers_only_the_content_type_is_sent_on() {
    let state = state();
    let (exchange, _) = Exchange::begin(&state, Route::CatchAll, false);
    let sent = |headers: Vec<Header>, raw: &[u8]| {
        let incoming = Incoming::catch_all(
            "PUT".to_string(),
            "/v1/files".to_string(),
            headers,
            raw.to_vec(),
        );
        outgoing_request(&exchange, &state, &incoming)
    };
    let plain = outgoing("PUT", "http://a/files", "ka", "text/csv", b"a,b");
    assert_eq!(sent(vec![header("content-type", "text/csv")], b"a,b"), plain);
    assert_eq!(
        sent(
            vec![
                header("authorization", "Bearer mine"),
                header("cookie", "c"),
                header("content-type", "text/csv"),
                header("content-type", "second"),
            ],
            b"a,b"
        ),
        plain
    );
    assert_eq!(
        sent(vec![], b"{}"),
        outgoing("PUT", "http://a/files", "ka", "application/json", b"{\"model\":\"ma\"}")
    );
    let unreadable = vec![Header { name: "content-type".to_string(), value: None }];
    assert_eq!(sent(unreadable, b"x").content_type, "application/json");
}

#[test]
fn what_cannot_ask_for_a_model_is_told_apart() {
    assert!(!Incoming::openai("/v1/x".to_string(), json("[]"), false).is_sendable());
    assert!(Incoming::openai("/v1/x".to_string(), json("null"), false).is_sendable());
    let raw = |text: &str| {
        Incoming::catch_all("GET".to_string(), "/".to_string(), vec![], text.as_bytes().to_vec())
    };
    assert!(!raw("1").is_sendable());
    assert!(raw("").is_sendable());
    assert!(Incoming::anthropic(json("[]"), false, true).unwrap().is_sendable());
    assert_eq!(Incoming::anthropic(json("[]"), true, true), None);
}

#[test]
fn the_first_header_of_a_name_counts() {
    let headers = vec![header("a", "1"), header("b", "2"), header("b", "3")];
    assert_eq!(text_of_header(&headers, "b"), Some("2"));
    assert_eq!(text_of_header(&headers, "c"), None);
}
