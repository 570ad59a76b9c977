use llmkeyrotator::anthropic::request::{
    is_of_type, request_to_openai, spoken, tool_call_with, tool_message_with,
};
use llmkeyrotator::json::Json;

fn json(text: &str) -> Json {
    Json::parse(text).unwrap()
}

fn converted(text: &str) -> Json {
    let mut body = json(text);
    let before = body.clone();
    let out = request_to_openai(&mut body);
    assert_eq!(body, before);
    out
}

fn messages(text: &str) -> String {
    converted(text).get("messages").unwrap().to_text()
}

#[test]
fn settings_are_carried_over() {
    let out = converted(
        r#"{"model":"m","max_tokens":10,"temperature":0.5,"top_p":1,"stop_sequences":["x"],
            "stream":true,"top_k":3,"metadata":{}}"#,
    );
    assert_eq!(
        out.to_text(),
        r#"{"max_tokens":10,"messages":[],"model":"m","stop":["x"],"stream":true,"temperature":0.5,"top_p":1}"#
    );
}

#[test]
fn anything_gives_a_list_of_messages() {
    for text in ["null", "1", "[]", "\"s\"", "{}", r#"{"messages":1}"#] {
        assert_eq!(converted(text).to_text(), r#"{"messages":[]}"#);
    }
}

#[test]
fn the_system_prompt_becomes_the_first_message() {
    assert_eq!(messages(r#"{"system":"be brief"}"#), r#"[{"content":"be brief","role":"system"}]"#);
    assert_eq!(messages(r#"{"system":""}"#), "[]");
    assert_eq!(messages(r#"{"system":7}"#), "[]");
    assert_eq!(
        messages(r#"{"system":[{"text":"a"},{"type":"x"},{"text":1},{"text":"b"}]}"#),
        r#"[{"content":"a\nb","role":"system"}]"#
    );
    assert_eq!(messages(r#"{"system":[{"text":""}]}"#), r#"[{"content":"","role":"system"}]"#);
    assert_eq!(messages(r#"{"system":[]}"#), "[]");
}

#[test]
fn plain_messages_keep_role_and_content() {
    assert_eq!(
        messages(r#"{"system":"s","messages":[{"role":"user","content":"hi"},{"content":"yo"}]}"#),
        r#"[{"content":"s","role":"system"},{"content":"hi","role":"user"},{"content":"yo","role":"user"}]"#
    );
    assert_eq!(
        messages(r#"{"messages":[{"role":"assistant"},{"role":1,"content":2},3]}"#),
        r#"[{"content":null,"role":"assistant"},{"content":null,"role":"user"},{"content":null,"role":"user"}]"#
    );
}

#[test]
fn text_blocks_are_joined() {
    assert_eq!(
        messages(
            r#"{"messages":[{"role":"user","content":[{"type":"text","text":"a"},
                {"type":"text"},{"text":"untyped"},{"type":"image"},{"type":"text","text":"b"}]}]}"#
        ),
        r#"[{"content":"a\nb","role":"user"}]"#
    );
    assert_eq!(messages(r#"{"messages":[{"role":"user","content":[]}]}"#), "[]");
}

#[test]
fn tool_use_becomes_a_tool_call() {
    assert_eq!(
        messages(
            r#"{"messages":[{"role":"assistant","content":[{"type":"tool_use","id":"t1",
                "name":"f","input":{"b":1,"a":2}}]}]}"#
        ),
        r#"[{"content":null,"role":"assistant","tool_calls":[{"function":{"arguments":"{\"a\":2,\"b\":1}","name":"f"},"id":"t1","type":"function"}]}]"#
    );
    assert_eq!(
        messages(
            r#"{"messages":[{"role":"assistant","content":[{"type":"tool_use"},
                {"type":"text","text":"x"}]}]}"#
        ),
        r#"[{"content":"x","role":"assistant","tool_calls":[{"function":{"arguments":"null","name":""},"id":"","type":"function"}]}]"#
    );
}

#[test]
fn tool_results_follow_what_was_said() {
    assert_eq!(
        messages(
            r#"{"messages":[{"role":"user","content":[
                {"type":"tool_result","tool_use_id":"t1","content":"ok"},
                {"type":"text","text":"next"},
                {"type":"tool_result","tool_use_id":"t2","content":[{"k":1}]},
                {"type":"tool_result"}]}]}"#
        ),
        r#"[{"content":"next","role":"user"},{"content":"ok","role":"tool","tool_call_id":"t1"},{"content":"[{\"k\":1}]","role":"tool","tool_call_id":"t2"},{"content":"","role":"tool","tool_call_id":""}]"#
    );
}

#[test]
fn tools_are_converted() {
    let out = converted(
        r#"{"tools":[{"name":"f","description":"d","input_schema":{"type":"object"}},{}],
            "tool_choice":{"type":"any"}}"#,
    );
    assert_eq!(
        out.get("tools").unwrap().to_text(),
        r#"[{"function":{"description":"d","name":"f","parameters":{"type":"object"}},"type":"function"},{"function":{"description":"","name":"","parameters":null},"type":"function"}]"#
    );
    assert_eq!(out.str_at("tool_choice"), Some("required"));
}

#[test]
fn the_tool_choice_is_converted() {
    let cases = [
        (r#"{"type":"auto"}"#, r#""auto""#),
        (r#"{"type":"any"}"#, r#""required""#),
        (
            r#"{"type":"tool","name":"f"}"#,
            r#"{"function":{"name":"f"},"type":"function"}"#,
        ),
        (
            r#"{"type":"tool","name":1}"#,
            r#"{"function":{"name":1},"type":"function"}"#,
        ),
        (r#"{"type":"tool"}"#, r#""auto""#),
        (r#"{"type":"none"}"#, r#""auto""#),
        (r#""any""#, r#""auto""#),
    ];
    for (choice, expected) in cases {
        let out = converted(&format!(r#"{{"tools":[{{}}],"tool_choice":{}}}"#, choice));
        assert_eq!(out.get("tool_choice").unwrap().to_text(), expected);
    }
}

#[test]
fn no_choice_is_made_without_tools() {
    assert_eq!(
        converted(r#"{"tools":[],"tool_choice":{"type":"any"}}"#).to_text(),
        r#"{"messages":[]}"#
    );
    assert_eq!(
        converted(r#"{"tools":{},"tool_choice":{"type":"any"}}"#).to_text(),
        r#"{"messages":[]}"#
    );
}

#[test]
fn parts_are_converted_alone() {
    let block = json(r#"{"type":"tool_use","id":"i","name":"n"}"#);
    assert!(is_of_type(&block, "tool_use"));
    assert!(!is_of_type(&block, "text"));
    assert!(!is_of_type(&Json::Null, "text"));
    assert_eq!(
        tool_call_with(&block, "{}".to_string()).to_text(),
        r#"{"function":{"arguments":"{}","name":"n"},"id":"i","type":"function"}"#
    );
    assert_eq!(
        tool_message_with(&json(r#"{"tool_use_id":"u"}"#), "c".to_string()).to_text(),
        r#"{"content":"c","role":"tool","tool_call_id":"u"}"#
    );
    assert_eq!(spoken("user", &vec![], vec![]), vec![]);
}
