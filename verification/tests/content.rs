use llmkeyrotator::anthropic::request::request_to_openai;
use llmkeyrotator::anthropic::response::response_to_anthropic;
use llmkeyrotator::anthropic::sse::{chunk_to_events, StreamEvent};
use llmkeyrotator::json::Json;
use std::collections::HashSet;

fn json(text: &str) -> Json {
    Json::parse(text).unwrap()
}

#[test]
fn a_stream_says_all_that_its_chunks_say() {
    let chunks = [
        r#"{"choices":[{"delta":{"content":"Hel"}}]}"#,
        r#"{"choices":[{"delta":{"content":""}},{"delta":{"content":"lo"}}]}"#,
        r#"{"choices":[{"delta":{"tool_calls":[{"index":0,"function":{"arguments":"{\"a\""}},{"index":4,"function":{"arguments":"["}}]}}]}"#,
        r#"{"choices":[{"delta":{"tool_calls":[{"index":4,"function":{"arguments":"]"}},{"index":0,"function":{"arguments":":1}"}}]},"finish_reason":"stop"}]}"#,
    ];
    let mut has_text = false;
    let mut tools = HashSet::new();
    let mut text = String::new();
    let mut first = String::new();
    let mut second = String::new();
    for chunk in chunks {
        for event in chunk_to_events(&json(chunk), &mut has_text, &mut tools) {
            match event {
                StreamEvent::TextDelta { text: more } => text.push_str(&more),
                StreamEvent::ToolDelta { index, json } => match index {
                    1 => first.push_str(&json),
                    5 => second.push_str(&json),
                    _ => panic!("no such block: {}", index),
                },
                _ => {}
            }
        }
    }
    assert_eq!(text, "Hello");
    assert_eq!(first, r#"{"a":1}"#);
    assert_eq!(second, "[]");
}

#[test]
fn an_answer_that_is_sent_back_says_the_same() {
    let openai = json(
        r#"{"choices":[{"message":{"role":"assistant","content":"hm","tool_calls":[
            {"id":"t","type":"function","function":{"name":"f","arguments":"{ \"a\" : 1 }"}}]}}]}"#,
    );
    let answer = response_to_anthropic(&openai);
    let mut next = Json::object().with(
        "messages",
        Json::Array(vec![Json::object()
            .with("role", Json::text("assistant"))
            .with("content", answer.get("content").unwrap().copy())]),
    );
    assert_eq!(
        request_to_openai(&mut next).to_text(),
        r#"{"messages":[{"content":"hm","role":"assistant","tool_calls":[{"function":{"arguments":"{\"a\":1}","name":"f"},"id":"t","type":"function"}]}]}"#
    );
}
