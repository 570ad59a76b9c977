use llmkeyrotator::anthropic::sse::{
    chunk_to_events, is_chunk_fit, render_all, sse_chunk_to_anthropic, sse_message_start,
    try_sse_chunk_to_anthropic,
};
use llmkeyrotator::json::Json;
use std::collections::HashSet;

fn pair(name: &str, data: &str) -> (String, String) {
    (name.to_string(), data.to_string())
}

fn names(events: &[(String, String)]) -> Vec<&str> {
    events.iter().map(|e| e.0.as_str()).collect()
}

#[test]
fn a_message_starts_empty() {
    assert_eq!(
        sse_message_start("i", "m"),
        pair(
            "message_start",
            r#"{"message":{"content":[],"id":"i","model":"m","role":"assistant","stop_reason":null,"stop_sequence":null,"type":"message","usage":{"input_tokens":0,"output_tokens":0}},"type":"message_start"}"#
        )
    );
}

#[test]
fn text_opens_its_block_once() {
    let mut has_text = false;
    let mut tools = HashSet::new();
    let first =
        sse_chunk_to_anthropic(r#"{"choices":[{"delta":{"content":"He"}}]}"#, &mut has_text, &mut tools);
    assert_eq!(
        first,
        vec![
            pair(
                "content_block_start",
                r#"{"content_block":{"text":"","type":"text"},"index":0,"type":"content_block_start"}"#
            ),
            pair(
                "content_block_delta",
                r#"{"delta":{"text":"He","type":"text_delta"},"index":0,"type":"content_block_delta"}"#
            ),
        ]
    );
    assert!(has_text);
    let second =
        sse_chunk_to_anthropic(r#"{"choices":[{"delta":{"content":"y"}}]}"#, &mut has_text, &mut tools);
    assert_eq!(names(&second), vec!["content_block_delta"]);
    assert!(tools.is_empty());
}

#[test]
fn what_carries_nothing_gives_no_event() {
    let mut has_text = false;
    let mut tools = HashSet::new();
    for text in [
        "",
        "not json",
        "{}",
        r#"{"choices":1}"#,
        r#"{"choices":[]}"#,
        r#"{"choices":[{}]}"#,
        r#"{"choices":[{"delta":{"content":""}}]}"#,
        r#"{"choices":[{"delta":{"content":1,"tool_calls":2},"finish_reason":null}]}"#,
    ] {
        assert!(sse_chunk_to_anthropic(text, &mut has_text, &mut tools).is_empty());
    }
    assert!(!has_text);
    assert!(tools.is_empty());
}

#[test]
fn tool_calls_open_blocks_behind_the_text_block() {
    let mut has_text = false;
    let mut tools = HashSet::new();
    let events = sse_chunk_to_anthropic(
        r#"{"choices":[{"delta":{"tool_calls":[
            {"index":2,"id":"a","function":{"name":"f","arguments":"{\"x\""}},
            {"id":"b","function":{"name":"g"}}]}}]}"#,
        &mut has_text,
        &mut tools,
    );
    assert_eq!(
        events,
        vec![
            pair(
                "content_block_start",
                r#"{"content_block":{"id":"a","input":{},"name":"f","type":"tool_use"},"index":3,"type":"content_block_start"}"#
            ),
            pair(
                "content_block_delta",
                r#"{"delta":{"partial_json":"{\"x\"","type":"input_json_delta"},"index":3,"type":"content_block_delta"}"#
            ),
            pair(
                "content_block_start",
                r#"{"content_block":{"id":"b","input":{},"name":"g","type":"tool_use"},"index":2,"type":"content_block_start"}"#
            ),
        ]
    );
    let mut open: Vec<usize> = tools.iter().copied().collect();
    open.sort();
    assert_eq!(open, vec![2, 3]);
    let more = sse_chunk_to_anthropic(
        r#"{"choices":[{"delta":{"tool_calls":[{"index":2,"function":{"arguments":":1}"}}]}}]}"#,
        &mut has_text,
        &mut tools,
    );
    assert_eq!(names(&more), vec!["content_block_delta"]);
}

#[test]
fn the_end_stops_the_open_blocks_in_order() {
    let mut has_text = true;
    let mut tools: HashSet<usize> = [5, 1, 3].into_iter().collect();
    let events = sse_chunk_to_anthropic(
        r#"{"choices":[{"delta":{},"finish_reason":"length"}]}"#,
        &mut has_text,
        &mut tools,
    );
    assert_eq!(
        events,
        vec![
            pair("content_block_stop", r#"{"index":0,"type":"content_block_stop"}"#),
            pair("content_block_stop", r#"{"index":1,"type":"content_block_stop"}"#),
            pair("content_block_stop", r#"{"index":3,"type":"content_block_stop"}"#),
            pair("content_block_stop", r#"{"index":5,"type":"content_block_stop"}"#),
            pair(
                "message_delta",
                r#"{"delta":{"stop_reason":"max_tokens","stop_sequence":null},"type":"message_delta","usage":{"output_tokens":0}}"#
            ),
            pair("message_stop", r#"{"type":"message_stop"}"#),
        ]
    );
}

#[test]
fn the_last_reason_to_stop_counts() {
    let mut has_text = false;
    let mut tools = HashSet::new();
    let events = sse_chunk_to_anthropic(
        r#"{"choices":[{"finish_reason":"length"},{"finish_reason":"tool_calls"},{}]}"#,
        &mut has_text,
        &mut tools,
    );
    assert_eq!(names(&events), vec!["message_delta", "message_stop"]);
    assert!(events[0].1.contains(r#""stop_reason":"tool_use""#));
    for (reason, expected) in [("stop", "end_turn"), ("other", "end_turn")] {
        let events = sse_chunk_to_anthropic(
            &format!(r#"{{"choices":[{{"finish_reason":"{}"}}]}}"#, reason),
            &mut has_text,
            &mut tools,
        );
        assert!(events[0].1.contains(&format!(r#""stop_reason":"{}""#, expected)));
    }
}

#[test]
fn an_index_that_cannot_be_held_is_told_apart() {
    let text = format!(
        r#"{{"choices":[{{"delta":{{"content":"x","tool_calls":[{{"index":{}}}]}}}}]}}"#,
        u64::MAX
    );
    assert!(!is_chunk_fit(&Json::parse(&text).unwrap()));
    let mut has_text = false;
    let mut tools = HashSet::new();
    assert_eq!(try_sse_chunk_to_anthropic(&text, &mut has_text, &mut tools), None);
    assert!(!has_text);
    assert!(tools.is_empty());
    assert_eq!(
        try_sse_chunk_to_anthropic("nope", &mut has_text, &mut tools),
        Some(vec![])
    );
    let fit = r#"{"choices":[{"delta":{"content":"x"}}]}"#;
    assert_eq!(
        names(&try_sse_chunk_to_anthropic(fit, &mut has_text, &mut tools).unwrap()),
        vec!["content_block_start", "content_block_delta"]
    );
}

#[test]
fn events_are_rendered_as_the_text_is() {
    let text = r#"{"choices":[{"delta":{"content":"x"},"finish_reason":"stop"}]}"#;
    let chunk = Json::parse(text).unwrap();
    assert!(is_chunk_fit(&chunk));
    let events = chunk_to_events(&chunk, &mut false, &mut HashSet::new());
    assert_eq!(events.len(), 5);
    assert_eq!(
        render_all(&events),
        sse_chunk_to_anthropic(text, &mut false, &mut HashSet::new())
    );
}

#[test]
fn the_data_of_each_event_spells_its_payload() {
    let text = r#"{"choices":[{"delta":{"content":"x\n","tool_calls":[{"id":"i","function":{"name":"n","arguments":"{}"}}]},"finish_reason":"stop"}]}"#;
    let events = chunk_to_events(&Json::parse(text).unwrap(), &mut false, &mut HashSet::new());
    let rendered = render_all(&events);
    assert_eq!(rendered.len(), events.len());
    for (event, (name, data)) in events.iter().zip(rendered) {
        let spelled = Json::parse(&data).unwrap();
        assert_eq!(spelled.to_text(), event.payload().to_text());
        assert_eq!(spelled.str_at("type"), Some(name.as_str()));
    }
    let (name, data) = sse_message_start("i", "m");
    assert_eq!(Json::parse(&data).unwrap().str_at("type"), Some(name.as_str()));
}
