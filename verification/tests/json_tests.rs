use cursor_bridge::json::{
    block_delta, block_start, json_string, message, message_delta, message_start, sse_event,
    BLOCK_STOP_JSON, DONE_LINE, MESSAGE_STOP_JSON,
};
use serde_json::Value;

fn obj(pairs: Vec<(&str, Value)>) -> Value {
    let mut m = serde_json::Map::new();
    for (k, v) in pairs {
        m.insert(k.to_string(), v);
    }
    Value::Object(m)
}

fn s(t: &str) -> Value {
    Value::String(t.to_string())
}

fn n(x: u64) -> Value {
    Value::from(x)
}

#[test]
fn quoting_escapes() {
    assert_eq!(json_string("plain"), "\"plain\"");
    assert_eq!(json_string("a\"b\\c"), "\"a\\\"b\\\\c\"");
    assert_eq!(json_string("\n\t\r\u{8}\u{c}"), "\"\\n\\t\\r\\b\\f\"");
    assert_eq!(json_string("\u{1}\u{1f}"), "\"\\u0001\\u001f\"");
    assert_eq!(json_string("é/\u{7f}"), "\"é/\u{7f}\"");
}

#[test]
fn message_start_matches_serde_value() {
    let expected = obj(vec![
        ("type", s("message_start")),
        (
            "message",
            obj(vec![
                ("id", s("msg_1")),
                ("type", s("message")),
                ("role", s("assistant")),
                ("content", Value::Array(vec![])),
                ("model", s("cursor \"auto\"")),
                ("stop_reason", Value::Null),
                ("usage", obj(vec![("input_tokens", n(0)), ("output_tokens", n(0))])),
            ]),
        ),
    ]);
    assert_eq!(message_start("msg_1", "cursor \"auto\""), serde_json::to_string(&expected).unwrap());
}

#[test]
fn block_events_match_serde_value() {
    let start = obj(vec![
        ("type", s("content_block_start")),
        ("index", n(0)),
        ("content_block", obj(vec![("type", s("text")), ("text", s("hi\n"))])),
    ]);
    assert_eq!(block_start("hi\n"), serde_json::to_string(&start).unwrap());
    let delta = obj(vec![
        ("type", s("content_block_delta")),
        ("index", n(0)),
        ("delta", obj(vec![("type", s("text_delta")), ("text", s("x"))])),
    ]);
    assert_eq!(block_delta("x"), serde_json::to_string(&delta).unwrap());
    let stop = obj(vec![("type", s("content_block_stop")), ("index", n(0))]);
    assert_eq!(BLOCK_STOP_JSON, serde_json::to_string(&stop).unwrap());
    let mstop = obj(vec![("type", s("message_stop"))]);
    assert_eq!(MESSAGE_STOP_JSON, serde_json::to_string(&mstop).unwrap());
}

#[test]
fn message_delta_matches_serde_value() {
    let v = obj(vec![
        ("type", s("message_delta")),
        ("delta", obj(vec![("stop_reason", s("end_turn"))])),
        ("usage", obj(vec![("input_tokens", n(12)), ("output_tokens", n(3456))])),
    ]);
    assert_eq!(message_delta(12, 3456), serde_json::to_string(&v).unwrap());
}

#[test]
fn whole_message_matches_serde_value() {
    let v = obj(vec![
        ("id", s("msg_9")),
        ("type", s("message")),
        ("role", s("assistant")),
        ("content", Value::Array(vec![obj(vec![("type", s("text")), ("text", s("ok ☃"))])])),
        ("model", s("m")),
        ("stop_reason", s("end_turn")),
        ("usage", obj(vec![("input_tokens", n(u64::MAX)), ("output_tokens", n(0))])),
    ]);
    assert_eq!(message("msg_9", "m", "ok ☃", u64::MAX, 0), serde_json::to_string(&v).unwrap());
}

#[test]
fn sse_framing() {
    assert_eq!(sse_event("message_stop", MESSAGE_STOP_JSON), "event: message_stop\ndata: {\"type\":\"message_stop\"}\n\n");
    assert_eq!(DONE_LINE, "data: [DONE]\n\n");
}

#[test]
fn event_data_is_one_line_and_parses_back() {
    let text = "line one\nline two\r\n\t\"quoted\"";
    let data = block_delta(text);
    assert!(!data.contains('\n') && !data.contains('\r'));
    let v: Value = serde_json::from_str(&data).unwrap();
    assert_eq!(v["delta"]["text"].as_str(), Some(text));
    let frame = sse_event("content_block_delta", &data);
    let lines: Vec<&str> = frame.split('\n').collect();
    assert_eq!(lines.len(), 4);
    assert_eq!(lines[0], "event: content_block_delta");
    assert_eq!(lines[1], format!("data: {data}"));
    assert_eq!((lines[2], lines[3]), ("", ""));
    let start = message_start("msg_1", "m\nx");
    assert!(!start.contains('\n'));
    let whole = message("id", "m", "a\rb", 1, 2);
    let v: Value = serde_json::from_str(&whole).unwrap();
    assert_eq!(v["content"][0]["text"].as_str(), Some("a\rb"));
}

#[test]
fn builders_match_serde_for_many_texts() {
    let samples = ["", "plain", "quote \" and \\ back", "ctl \u{0}\u{7}\u{1b}\u{1f}", "multi\nline\r\ntext\t", "uni é ☃ 𝄞 \u{2028}", "</script>"];
    for t in samples {
        let start = obj(vec![
            ("type", s("content_block_start")),
            ("index", n(0)),
            ("content_block", obj(vec![("type", s("text")), ("text", s(t))])),
        ]);
        assert_eq!(block_start(t), serde_json::to_string(&start).unwrap());
        let delta = obj(vec![
            ("type", s("content_block_delta")),
            ("index", n(0)),
            ("delta", obj(vec![("type", s("text_delta")), ("text", s(t))])),
        ]);
        assert_eq!(block_delta(t), serde_json::to_string(&delta).unwrap());
        let start_msg = obj(vec![
            ("type", s("message_start")),
            (
                "message",
                obj(vec![
                    ("id", s("msg_42")),
                    ("type", s("message")),
                    ("role", s("assistant")),
                    ("content", Value::Array(vec![])),
                    ("model", s(t)),
                    ("stop_reason", Value::Null),
                    ("usage", obj(vec![("input_tokens", n(0)), ("output_tokens", n(0))])),
                ]),
            ),
        ]);
        assert_eq!(message_start("msg_42", t), serde_json::to_string(&start_msg).unwrap());
        let whole = obj(vec![
            ("id", s("msg_42")),
            ("type", s("message")),
            ("role", s("assistant")),
            ("content", Value::Array(vec![obj(vec![("type", s("text")), ("text", s(t))])])),
            ("model", s("cursor-auto")),
            ("stop_reason", s("end_turn")),
            ("usage", obj(vec![("input_tokens", n(1)), ("output_tokens", n(2))])),
        ]);
        assert_eq!(message("msg_42", "cursor-auto", t, 1, 2), serde_json::to_string(&whole).unwrap());
        assert_eq!(json_string(t), serde_json::to_string(t).unwrap());
        let back: Value = serde_json::from_str(&block_delta(t)).unwrap();
        assert_eq!(back, delta);
    }
}
