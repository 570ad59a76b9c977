use llmkeyrotator::anthropic::response::{
    function_text_of, message_object_of, response_to_anthropic, stop_reason_of, tool_use_with,
};
use llmkeyrotator::json::Json;

fn json(text: &str) -> Json {
    Json::parse(text).unwrap()
}

fn stop_reason(choice: &str) -> String {
    let openai = json(&format!(r#"{{"choices":[{}]}}"#, choice));
    response_to_anthropic(&openai).str_at("stop_reason").unwrap().to_string()
}

#[test]
fn a_text_answer_is_converted() {
    let openai = json(
        r#"{"id":"c1","model":"m","choices":[{"message":{"content":"hi"},"finish_reason":"stop"},
            {"message":{"content":"other"}}],
            "usage":{"prompt_tokens":3,"completion_tokens":5}}"#,
    );
    assert_eq!(
        response_to_anthropic(&openai).to_text(),
        r#"{"content":[{"text":"hi","type":"text"}],"id":"c1","model":"m","role":"assistant","stop_reason":"end_turn","stop_sequence":null,"type":"message","usage":{"input_tokens":3,"output_tokens":5}}"#
    );
}

#[test]
fn an_empty_answer_is_a_message_without_content() {
    let empty = r#"{"content":[],"id":"","model":"","role":"assistant","stop_reason":"end_turn","stop_sequence":null,"type":"message","usage":{"input_tokens":0,"output_tokens":0}}"#;
    for text in [
        "null",
        "{}",
        r#"{"choices":[]}"#,
        r#"{"choices":[{"message":{"content":""}}]}"#,
        r#"{"id":1,"usage":[1],"choices":{}}"#,
        r#"{"usage":{"prompt_tokens":-1,"completion_tokens":1.5}}"#,
    ] {
        assert_eq!(response_to_anthropic(&json(text)).to_text(), empty);
    }
}

#[test]
fn tool_calls_are_converted() {
    let openai = json(
        r#"{"choices":[{"message":{"content":"t","tool_calls":[
            {"id":"a","function":{"name":"f","arguments":"{\"x\":1}"}},
            {"id":"b","function":{"name":"g"}},
            {"function":{"arguments":"not json"}}]},"finish_reason":"length"}]}"#,
    );
    let out = response_to_anthropic(&openai);
    assert_eq!(
        out.get("content").unwrap().to_text(),
        r#"[{"text":"t","type":"text"},{"id":"a","input":{"x":1},"name":"f","type":"tool_use"},{"id":"b","input":{},"name":"g","type":"tool_use"},{"id":"","input":null,"name":"","type":"tool_use"}]"#
    );
    assert_eq!(out.str_at("stop_reason"), Some("tool_use"));
}

#[test]
fn the_stop_reason_is_converted() {
    assert_eq!(stop_reason(r#"{"finish_reason":"stop"}"#), "end_turn");
    assert_eq!(stop_reason(r#"{"finish_reason":"length"}"#), "max_tokens");
    assert_eq!(stop_reason(r#"{"finish_reason":"tool_calls"}"#), "tool_use");
    assert_eq!(stop_reason(r#"{"finish_reason":"content_filter"}"#), "end_turn");
    assert_eq!(stop_reason(r#"{"finish_reason":null}"#), "end_turn");
    assert_eq!(
        stop_reason(r#"{"message":{"tool_calls":[]},"finish_reason":"length"}"#),
        "tool_use"
    );
    assert_eq!(stop_reason_of("length"), "max_tokens");
}

#[test]
fn parts_of_an_answer_are_converted_alone() {
    let call = json(r#"{"id":"i","function":{"name":"n","arguments":"[]"}}"#);
    assert_eq!(function_text_of(&call, "arguments", "{}"), "[]");
    assert_eq!(function_text_of(&Json::Null, "arguments", "{}"), "{}");
    assert_eq!(
        tool_use_with(&call, json("[]")).to_text(),
        r#"{"id":"i","input":[],"name":"n","type":"tool_use"}"#
    );
    assert_eq!(
        message_object_of("i", "m", vec![], Json::Null, 1, 2).to_text(),
        r#"{"content":[],"id":"i","model":"m","role":"assistant","stop_reason":null,"stop_sequence":null,"type":"message","usage":{"input_tokens":1,"output_tokens":2}}"#
    );
}
