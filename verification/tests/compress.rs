use llmkeyrotator::compress::{
    apply_compress_hint_anthropic, apply_compress_hint_openai, COMPRESS_PROMPT,
};
use llmkeyrotator::json::Json;

fn json(text: &str) -> Json {
    Json::parse(text).unwrap()
}

fn openai(text: &str) -> Json {
    let mut body = json(text);
    apply_compress_hint_openai(&mut body);
    body
}

fn anthropic(text: &str) -> Json {
    let mut body = json(text);
    assert!(body.accepts_members());
    apply_compress_hint_anthropic(&mut body);
    body
}

#[test]
fn the_hint_joins_the_system_message() {
    let out = openai(
        r#"{"messages":[{"role":"user","content":"u"},{"role":"system","content":"be kind \n"},
            {"role":"system","content":"second"}]}"#,
    );
    let messages = out.array_at("messages").unwrap();
    assert_eq!(messages.len(), 3);
    assert_eq!(messages[0].str_at("content"), Some("u"));
    assert_eq!(
        messages[1].str_at("content"),
        Some(format!("be kind\n\n{}", COMPRESS_PROMPT).as_str())
    );
    assert_eq!(messages[2].str_at("content"), Some("second"));
}

#[test]
fn the_hint_becomes_the_first_message_where_there_is_none() {
    let out = openai(r#"{"messages":[{"role":"user","content":"u"}]}"#);
    let messages = out.array_at("messages").unwrap();
    assert_eq!(messages.len(), 2);
    assert_eq!(messages[0].str_at("role"), Some("system"));
    assert_eq!(messages[0].str_at("content"), Some(COMPRESS_PROMPT));
    assert_eq!(messages[1].str_at("role"), Some("user"));
}

#[test]
fn a_system_message_without_text_gets_the_hint() {
    let expected = format!("\n\n{}", COMPRESS_PROMPT);
    for text in [
        r#"{"messages":[{"role":"system"}]}"#,
        r#"{"messages":[{"role":"system","content":null}]}"#,
    ] {
        let out = openai(text);
        assert_eq!(
            out.array_at("messages").unwrap()[0].str_at("content"),
            Some(expected.as_str())
        );
    }
}

#[test]
fn the_hint_follows_the_blocks_of_a_system_message() {
    let out = openai(
        r#"{"messages":[{"role":"system","content":[{"type":"text","text":"Be kind"}]}]}"#,
    );
    let content = out.array_at("messages").unwrap()[0].array_at("content").unwrap();
    assert_eq!(content.len(), 2);
    assert_eq!(content[0].str_at("text"), Some("Be kind"));
    assert_eq!(content[1].str_at("type"), Some("text"));
    assert_eq!(content[1].str_at("text"), Some(COMPRESS_PROMPT));
}

#[test]
fn a_body_without_messages_stays() {
    for text in ["null", "1", "[]", "{}", r#"{"messages":"m"}"#] {
        assert_eq!(openai(text), json(text));
    }
}

#[test]
fn the_hint_joins_the_system_prompt() {
    assert_eq!(
        anthropic(r#"{"system":"s  ","k":1}"#).str_at("system"),
        Some(format!("s\n\n{}", COMPRESS_PROMPT).as_str())
    );
    assert_eq!(anthropic(r#"{"system":"s","k":1}"#).u64_at("k"), Some(1));
    for text in ["null", "{}", r#"{"system":7}"#, r#"{"system":null}"#] {
        assert_eq!(anthropic(text).str_at("system"), Some(COMPRESS_PROMPT));
    }
}

#[test]
fn the_hint_becomes_the_last_block() {
    let out = anthropic(r#"{"system":[{"type":"text","text":"a"}]}"#);
    let blocks = out.array_at("system").unwrap();
    assert_eq!(blocks.len(), 2);
    assert_eq!(blocks[0].str_at("text"), Some("a"));
    assert_eq!(blocks[1].str_at("type"), Some("text"));
    assert_eq!(blocks[1].str_at("text"), Some(COMPRESS_PROMPT));
}

#[test]
fn hinting_twice_is_hinting_once() {
    for text in [
        r#"{"messages":[]}"#,
        r#"{"messages":[{"role":"system","content":"s "}]}"#,
        r#"{"messages":[{"role":"user","content":"s "}]}"#,
        r#"{"messages":[{"role":"system","content":[{"type":"text","text":"s"}]}]}"#,
    ] {
        let once = openai(text);
        let mut twice = once.copy();
        apply_compress_hint_openai(&mut twice);
        assert_eq!(once.to_text(), twice.to_text());
    }
    for text in ["{}", r#"{"system":"s "}"#, r#"{"system":[]}"#, r#"{"system":[{"text":"a"}]}"#] {
        let once = anthropic(text);
        let mut twice = once.copy();
        apply_compress_hint_anthropic(&mut twice);
        assert_eq!(once.to_text(), twice.to_text());
    }
}

#[test]
fn the_hint_reads_as_it_is_written() {
    assert!(COMPRESS_PROMPT.starts_with("Ultra-compressed replies."));
    assert!(COMPRESS_PROMPT.contains("(X→Y)"));
    assert!(COMPRESS_PROMPT.ends_with("API names/error strings."));
}
