use llmkeyrotator::stream::{data_of, AnthropicStream, LineBuffer, PING};

const UPSTREAM: &str = "data: {\"id\":\"c\",\"model\":\"m\",\"choices\":[{\"delta\":{\"content\":\"Hé\"}}]}\r\n\
: comment\n\
\n\
data: {\"choices\":[{\"delta\":{\"tool_calls\":[{\"index\":0,\"id\":\"t\",\"function\":{\"name\":\"f\",\"arguments\":\"{}\"}}]}}]}\n\
data: {\"choices\":[{\"delta\":{},\"finish_reason\":\"tool_calls\"}]}\n\
data: [DONE]\n";

fn fed(chunks: &[&[u8]]) -> (Vec<String>, bool) {
    let mut stream = AnthropicStream::new();
    let mut out = Vec::new();
    let mut intact = true;
    for chunk in chunks {
        let (frames, whole) = stream.feed(chunk);
        out.extend(frames);
        intact = intact && whole;
    }
    (out, intact)
}

#[test]
fn lines_are_kept_until_they_end() {
    let mut lines = LineBuffer::new();
    assert!(lines.feed(b"da").is_empty());
    assert!(lines.feed(b"ta: on").is_empty());
    assert_eq!(lines.pending, b"data: on");
    assert_eq!(lines.feed(b"e\ndata: two\r\n\nda"), vec!["one", "two"]);
    assert_eq!(lines.pending, b"da");
    assert_eq!(lines.feed(b"ta: three\n"), vec!["three"]);
    assert!(lines.pending.is_empty());
}

#[test]
fn only_data_is_handed_out() {
    let mut lines = LineBuffer::new();
    assert!(lines.feed(b"event: x\n: c\ndata:none\n\ndata: [DONE]\nxdata: y\n").is_empty());
    assert_eq!(lines.feed(b"  data: x y \t\n"), vec!["x y"]);
    // Trimming takes the blank that the prefix ends with.
    assert!(lines.feed(b"data: \n").is_empty());
    assert_eq!(lines.feed(b"data:  [DONE]\n"), vec![" [DONE]"]);
}

#[test]
fn what_is_no_utf8_is_replaced() {
    let mut lines = LineBuffer::new();
    assert_eq!(lines.feed(b"data: a\xffb\n"), vec!["a\u{fffd}b"]);
    // What is cut off by the end of a line is replaced, and the line end stays.
    assert_eq!(lines.feed(b"data: a\xe2\x82\ndata: b\n"), vec!["a\u{fffd}", "b"]);
}

#[test]
fn a_character_that_is_cut_in_two_is_kept() {
    let mut lines = LineBuffer::new();
    assert!(lines.feed(b"data: \xc3").is_empty());
    assert_eq!(lines.feed(b"\xa9\n"), vec!["é"]);
}

#[test]
fn lines_are_read_as_text() {
    assert_eq!(data_of(" data: x\r"), Some("x".to_string()));
    assert_eq!(data_of("data: [DONE]"), None);
    assert_eq!(data_of("event: x"), None);
}

#[test]
fn a_stream_goes_out_as_events() {
    let (frames, intact) = fed(&[UPSTREAM.as_bytes()]);
    assert!(intact);
    let names: Vec<&str> =
        frames.iter().map(|f| f.lines().next().unwrap()).collect();
    assert_eq!(
        names,
        vec![
            "event: message_start",
            "event: content_block_start",
            "event: content_block_delta",
            "event: content_block_start",
            "event: content_block_delta",
            "event: content_block_stop",
            "event: content_block_stop",
            "event: message_delta",
            "event: message_stop",
        ]
    );
    assert_eq!(
        frames[0],
        "event: message_start\ndata: {\"message\":{\"content\":[],\"id\":\"c\",\"model\":\"m\",\"role\":\"assistant\",\"stop_reason\":null,\"stop_sequence\":null,\"type\":\"message\",\"usage\":{\"input_tokens\":0,\"output_tokens\":0}},\"type\":\"message_start\"}\n\n"
    );
    assert_eq!(
        frames[2],
        "event: content_block_delta\ndata: {\"delta\":{\"text\":\"Hé\",\"type\":\"text_delta\"},\"index\":0,\"type\":\"content_block_delta\"}\n\n"
    );
}

#[test]
fn cuts_change_nothing() {
    let mut bytes = UPSTREAM.as_bytes().to_vec();
    bytes.extend_from_slice(b"data: {\"choices\":[{\"delta\":{\"content\":\"\xff\xe2\x82\"}}]}\n");
    let whole = fed(&[&bytes]);
    for at in 0..bytes.len() {
        let (a, b) = bytes.split_at(at);
        assert_eq!(fed(&[a, b]), whole);
    }
    let one_by_one: Vec<&[u8]> = bytes.chunks(1).collect();
    assert_eq!(fed(&one_by_one), whole);
}

#[test]
fn each_frame_is_one_event() {
    let text = "data: {\"id\":\"a\\n\\nb\",\"choices\":[{\"delta\":{\"content\":\"x\\r\\n\\ny\"}}]}\n";
    let (frames, _) = fed(&[text.as_bytes()]);
    assert_eq!(frames.len(), 3);
    for frame in frames {
        assert_eq!(frame.matches('\n').count(), 3);
        assert!(!frame.contains('\r'));
        assert!(frame.starts_with("event: ") && frame.ends_with("\n\n"));
    }
}

#[test]
fn a_stream_that_spells_no_value_still_starts() {
    let (frames, intact) = fed(&[b"data: oops\n"]);
    assert!(intact);
    assert_eq!(frames.len(), 1);
    assert!(frames[0].starts_with("event: message_start\ndata: {"));
    assert!(frames[0].contains("\"id\":\"\""));
}

#[test]
fn nothing_goes_out_before_data_comes() {
    let (frames, intact) = fed(&[b": hello\n\ndata: [DONE]\n", b"data: {"]);
    assert!(intact);
    assert!(frames.is_empty());
}

#[test]
fn an_index_that_cannot_be_held_breaks_the_stream() {
    let text = format!(
        "data: {{\"choices\":[{{\"delta\":{{\"tool_calls\":[{{\"index\":{}}}]}}}}]}}\n",
        u64::MAX
    );
    let (frames, intact) = fed(&[text.as_bytes()]);
    assert!(!intact);
    assert_eq!(frames.len(), 1);
}

#[test]
fn chunks_are_taken_one_by_one() {
    let mut stream = AnthropicStream::new();
    let mut out = Vec::new();
    assert!(stream.push_chunk(None, &mut out));
    assert_eq!(out.len(), 1);
    assert!(stream.sent_start);
    let (frames, intact) = stream.feed(b"data: {\"choices\":[{\"delta\":{\"content\":\"x\"}}]}\n");
    assert!(intact);
    assert_eq!(frames.len(), 2);
    assert!(stream.has_text);
}

#[test]
fn a_ping_is_a_frame() {
    assert_eq!(PING.as_bytes(), b"event: ping\ndata: {\"type\":\"ping\"}\n\n");
}
