use llmkeyrotator::anthropic::cache::{apply_cache_hints, is_cache_markable};
use llmkeyrotator::anthropic::request::request_to_openai;
use llmkeyrotator::json::Json;

fn json(text: &str) -> Json {
    Json::parse(text).unwrap()
}

fn hinted(text: &str) -> Json {
    let mut body = json(text);
    assert!(is_cache_markable(&body));
    apply_cache_hints(&mut body);
    body
}

const BODIES: [&str; 7] = [
    "{}",
    r#"{"system":"s","messages":[{"role":"user","content":"a"}]}"#,
    r#"{"system":"","messages":[{"role":"user","content":[]},{"role":"assistant","content":"b"}]}"#,
    r#"{"system":[{"type":"text","text":"x"},{"type":"text","text":"y"}]}"#,
    r#"{"messages":[{"role":"user","content":"a"},{"role":"user","content":[{"type":"text","text":"b"}]}]}"#,
    r#"{"system":[],"messages":[{"role":"assistant","content":"b"}]}"#,
    r#"{"model":"m","system":7,"messages":[{"role":"user"}]}"#,
];

#[test]
fn the_system_prompt_is_marked() {
    assert_eq!(
        hinted(r#"{"system":"s"}"#).to_text(),
        r#"{"system":[{"cache_control":{"type":"ephemeral"},"text":"s","type":"text"}]}"#
    );
    assert_eq!(hinted(r#"{"system":""}"#).to_text(), r#"{"system":""}"#);
    assert_eq!(hinted(r#"{"system":1}"#).to_text(), r#"{"system":1}"#);
    assert_eq!(hinted(r#"{"system":[]}"#).to_text(), r#"{"system":[]}"#);
    assert_eq!(
        hinted(r#"{"system":[{"text":"a"},{"text":"b"}]}"#).to_text(),
        r#"{"system":[{"text":"a"},{"cache_control":{"type":"ephemeral"},"text":"b"}]}"#
    );
}

#[test]
fn a_mark_that_is_there_stays() {
    assert_eq!(
        hinted(r#"{"system":[{"text":"a","cache_control":1}]}"#).to_text(),
        r#"{"system":[{"cache_control":1,"text":"a"}]}"#
    );
}

#[test]
fn the_last_user_message_is_marked() {
    assert_eq!(
        hinted(
            r#"{"messages":[{"role":"user","content":"a"},{"role":"user","content":"b"},
                {"role":"assistant","content":"c"}]}"#
        )
        .to_text(),
        r#"{"messages":[{"content":"a","role":"user"},{"content":[{"cache_control":{"type":"ephemeral"},"text":"b","type":"text"}],"role":"user"},{"content":"c","role":"assistant"}]}"#
    );
    assert_eq!(
        hinted(r#"{"messages":[{"role":"user","content":[{"text":"a"},{"text":"b"}]}]}"#).to_text(),
        r#"{"messages":[{"content":[{"text":"a"},{"cache_control":{"type":"ephemeral"},"text":"b"}],"role":"user"}]}"#
    );
}

#[test]
fn nothing_is_marked_where_there_is_nothing_to_mark() {
    for text in ["null", "{}", "[]", r#"{"messages":[{"role":"assistant","content":"b"}]}"#] {
        assert_eq!(hinted(text), json(text));
    }
}

#[test]
fn marks_have_no_place_in_a_block_that_is_no_object() {
    assert!(!is_cache_markable(&json(r#"{"system":["s"]}"#)));
    assert!(!is_cache_markable(&json(r#"{"messages":[{"role":"user","content":[1]}]}"#)));
    assert!(is_cache_markable(&json(r#"{"system":["s",null]}"#)));
    assert!(is_cache_markable(&json(
        r#"{"messages":[{"role":"user","content":[1]},{"role":"user","content":"x"}]}"#
    )));
}

#[test]
fn marking_twice_is_marking_once() {
    for text in BODIES {
        let once = hinted(text);
        let mut twice = once.copy();
        assert!(is_cache_markable(&twice));
        apply_cache_hints(&mut twice);
        assert_eq!(once.to_text(), twice.to_text());
    }
}

#[test]
fn marks_do_not_change_what_is_asked() {
    for text in BODIES {
        let mut plain = json(text);
        let mut marked = hinted(text);
        assert_eq!(
            request_to_openai(&mut plain).to_text(),
            request_to_openai(&mut marked).to_text()
        );
    }
}
