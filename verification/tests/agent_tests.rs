use cursor_bridge::agent::{
    agent_args, agent_program, message_id, stream_opening, AgentEvent, Reply, StreamState,
    DEFAULT_AGENT_PATH,
};
use cursor_bridge::json::{block_delta, block_start, message_delta, message_start, sse_event, BLOCK_STOP_JSON, DONE_LINE, MESSAGE_STOP_JSON};
use cursor_bridge::prompt::TextValue;

fn assistant(texts: Vec<Option<&str>>) -> AgentEvent {
    AgentEvent {
        kind: Some("assistant".into()),
        content: TextValue::Array(texts.into_iter().map(|t| t.map(String::from)).collect()),
        input_tokens: None,
        output_tokens: None,
    }
}

fn result(input: Option<u64>, output: Option<u64>) -> AgentEvent {
    AgentEvent { kind: Some("result".into()), content: TextValue::Other, input_tokens: input, output_tokens: output }
}

fn other(kind: Option<&str>) -> AgentEvent {
    AgentEvent { kind: kind.map(String::from), content: TextValue::Other, input_tokens: Some(1), output_tokens: Some(1) }
}

fn texts(frames: Vec<cursor_bridge::agent::Frame>) -> Vec<(String, bool)> {
    frames.into_iter().map(|f| (f.text, f.must_deliver)).collect()
}

#[test]
fn first_text_opens_the_block() {
    let mut st = StreamState::new();
    let frames = texts(st.on_event(&assistant(vec![Some("Hel"), None, Some("lo")])));
    assert_eq!(
        frames,
        vec![
            (sse_event("content_block_start", &block_start("Hel")), true),
            (sse_event("content_block_delta", &block_delta("Hel")), true),
            (sse_event("content_block_delta", &block_delta("lo")), true),
        ]
    );
    assert!(st.started);
    assert!(!st.handled);
    let frames = texts(st.on_event(&assistant(vec![Some("!")])));
    assert_eq!(frames, vec![(sse_event("content_block_delta", &block_delta("!")), true)]);
}

#[test]
fn assistant_without_array_sends_nothing() {
    let mut st = StreamState::new();
    let ev = AgentEvent { kind: Some("assistant".into()), content: TextValue::Str("x".into()), input_tokens: None, output_tokens: None };
    assert!(st.on_event(&ev).is_empty());
    assert!(st.on_event(&assistant(vec![None])).is_empty());
    assert!(!st.started);
}

#[test]
fn result_closes_open_block() {
    let mut st = StreamState::new();
    st.on_event(&assistant(vec![Some("a")]));
    let frames = texts(st.on_event(&result(Some(10), Some(2))));
    assert_eq!(
        frames,
        vec![
            (sse_event("content_block_stop", BLOCK_STOP_JSON), false),
            (sse_event("message_delta", &message_delta(10, 2)), false),
            (sse_event("message_stop", MESSAGE_STOP_JSON), false),
            (DONE_LINE.to_string(), false),
        ]
    );
    assert!(st.handled);
    assert!(st.finish().is_empty());
}

#[test]
fn result_without_text_or_usage() {
    let mut st = StreamState::new();
    let frames = texts(st.on_event(&result(None, None)));
    assert_eq!(
        frames,
        vec![
            (sse_event("message_delta", &message_delta(0, 0)), false),
            (sse_event("message_stop", MESSAGE_STOP_JSON), false),
            (DONE_LINE.to_string(), false),
        ]
    );
}

#[test]
fn other_events_are_ignored() {
    let mut st = StreamState::new();
    assert!(st.on_event(&other(Some("system"))).is_empty());
    assert!(st.on_event(&other(None)).is_empty());
    assert!(!st.started && !st.handled);
}

#[test]
fn fallback_when_no_result() {
    let mut st = StreamState::new();
    st.on_event(&assistant(vec![Some("partial")]));
    let frames = texts(st.finish());
    assert_eq!(
        frames,
        vec![
            (sse_event("content_block_stop", BLOCK_STOP_JSON), false),
            (sse_event("message_delta", &message_delta(0, 0)), false),
            (sse_event("message_stop", MESSAGE_STOP_JSON), false),
            (DONE_LINE.to_string(), false),
        ]
    );
    let st = StreamState::new();
    assert_eq!(st.finish().len(), 3);
}

#[test]
fn streamed_deltas_add_up_to_reply() {
    let events = vec![
        assistant(vec![Some("The "), None]),
        other(Some("tool_call")),
        assistant(vec![Some("answer"), Some(" is 42")]),
        result(Some(5), Some(6)),
    ];
    let mut st = StreamState::new();
    let mut streamed = String::new();
    for ev in &events {
        for f in st.on_event(ev) {
            if f.text.starts_with("event: content_block_delta") {
                let data = f.text.trim_start_matches("event: content_block_delta\ndata: ").trim_end();
                let v: serde_json::Value = serde_json::from_str(data).unwrap();
                streamed.push_str(v["delta"]["text"].as_str().unwrap());
            }
        }
    }
    let mut reply = Reply::new();
    for ev in &events {
        reply.on_event(ev);
    }
    assert_eq!(streamed, "The answer is 42");
    assert_eq!(reply.text, streamed);
}

#[test]
fn reply_collects_text_and_last_usage() {
    let mut reply = Reply::new();
    reply.on_event(&assistant(vec![Some("a"), Some("b")]));
    reply.on_event(&result(Some(1), Some(2)));
    reply.on_event(&result(Some(7), None));
    assert_eq!(reply.text, "ab");
    assert_eq!(reply.input_tokens, Some(7));
    assert_eq!(reply.output_tokens, None);
    let r = reply.response("msg_3", "cursor-auto");
    let body = "{\"content\":[{\"text\":\"ab\",\"type\":\"text\"}],\"id\":\"msg_3\",\"model\":\"cursor-auto\",\"role\":\"assistant\",\"stop_reason\":\"end_turn\",\"type\":\"message\",\"usage\":{\"input_tokens\":7,\"output_tokens\":0}}";
    assert_eq!(
        r,
        format!("HTTP/1.1 200 OK\r\nContent-Type: application/json\r\nContent-Length: {}\r\n\r\n{}", body.len(), body)
    );
}

#[test]
fn message_ids_and_opening() {
    assert_eq!(message_id(0), "msg_0");
    assert_eq!(message_id(4294967295), "msg_4294967295");
    assert_eq!(stream_opening("msg_1", "m"), sse_event("message_start", &message_start("msg_1", "m")));
}

#[test]
fn agent_command() {
    assert_eq!(agent_program(None), DEFAULT_AGENT_PATH);
    assert_eq!(agent_program(Some("/opt/agent".into())), "/opt/agent");
    assert_eq!(
        agent_args("do it"),
        vec!["--mode", "ask", "--print", "--output-format", "stream-json", "--model", "auto", "--trust", "do it"]
    );
}

use cursor_bridge::agent::parse_agent_line;

#[test]
fn agent_line_parsing() {
    let ev = parse_agent_line(
        r#"{"type":"assistant","message":{"content":[{"type":"text","text":"hi"},{"type":"tool_use"},7,{"text":3}]},"usage":{"inputTokens":4,"outputTokens":9}}"#,
    )
    .unwrap();
    assert_eq!(ev.kind.as_deref(), Some("assistant"));
    match &ev.content {
        TextValue::Array(bs) => assert_eq!(bs, &vec![Some("hi".to_string()), None, None, None]),
        _ => panic!("content should be an array"),
    }
    assert_eq!((ev.input_tokens, ev.output_tokens), (Some(4), Some(9)));

    let ev = parse_agent_line(r#"{"type":"result","message":{"content":"text"},"usage":{"inputTokens":-1,"outputTokens":2.5}}"#).unwrap();
    assert_eq!(ev.kind.as_deref(), Some("result"));
    assert!(matches!(ev.content, TextValue::Other));
    assert_eq!((ev.input_tokens, ev.output_tokens), (None, None));

    let ev = parse_agent_line("[1,2]").unwrap();
    assert_eq!(ev.kind, None);
    assert!(parse_agent_line("not json").is_none());
    assert!(parse_agent_line("{\"type\":").is_none());
}

#[test]
fn stream_and_reply_from_lines() {
    let lines = [
        "",
        "   ",
        "garbage",
        r#"{"type":"assistant","message":{"content":[{"text":"Hel"},{"text":"lo"}]}}"#,
        r#"{"type":"system"}"#,
        r#"{"type":"result","usage":{"inputTokens":11,"outputTokens":22}}"#,
    ];
    let mut st = StreamState::new();
    let mut reply = Reply::new();
    let mut all = Vec::new();
    for l in lines {
        all.extend(st.on_line(l));
        reply.on_line(l);
    }
    assert!(st.started && st.handled);
    assert!(st.finish().is_empty());
    let texts: Vec<String> = all.into_iter().map(|f| f.text).collect();
    assert_eq!(
        texts,
        vec![
            sse_event("content_block_start", &block_start("Hel")),
            sse_event("content_block_delta", &block_delta("Hel")),
            sse_event("content_block_delta", &block_delta("lo")),
            sse_event("content_block_stop", BLOCK_STOP_JSON),
            sse_event("message_delta", &message_delta(11, 22)),
            sse_event("message_stop", MESSAGE_STOP_JSON),
            DONE_LINE.to_string(),
        ]
    );
    assert_eq!(reply.text, "Hello");
    assert_eq!((reply.input_tokens, reply.output_tokens), (Some(11), Some(22)));
}

#[test]
fn default_agent_is_looked_up_in_path() {
    assert_eq!(DEFAULT_AGENT_PATH, "agent");
}
