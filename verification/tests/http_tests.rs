use cursor_bridge::http::{
    agent_error_response, chunk_size, ends_headers, hello_response, json_response,
    models_response, parse_request_line, route, BodyFraming, HeaderSummary, Route, MODELS_BODY,
    NOT_FOUND_RESPONSE, PREFLIGHT_RESPONSE,
};

#[test]
fn request_line_method_and_path() {
    let rl = parse_request_line("POST /v1/messages?beta=true HTTP/1.1\r\n").unwrap();
    assert_eq!(rl.method, "POST");
    assert_eq!(rl.path, "/v1/messages?beta=true");
}

#[test]
fn request_line_without_version() {
    let rl = parse_request_line("GET /models").unwrap();
    assert_eq!(rl.method, "GET");
    assert_eq!(rl.path, "/models");
}

#[test]
fn request_line_double_space_gives_empty_path() {
    let rl = parse_request_line("GET  /x HTTP/1.1").unwrap();
    assert_eq!(rl.method, "GET");
    assert_eq!(rl.path, "");
}

#[test]
fn request_line_leading_whitespace_trimmed() {
    let rl = parse_request_line("  \tOPTIONS * HTTP/1.1\r\n").unwrap();
    assert_eq!(rl.method, "OPTIONS");
    assert_eq!(rl.path, "*");
}

#[test]
fn request_line_rejected() {
    assert!(parse_request_line("").is_none());
    assert!(parse_request_line("   \r\n").is_none());
    assert!(parse_request_line("GET\r\n").is_none());
    assert!(parse_request_line("GET\t/x").is_none());
}

#[test]
fn request_line_unicode_whitespace_trimmed() {
    let rl = parse_request_line("\u{3000}GET /a\u{a0}").unwrap();
    assert_eq!(rl.method, "GET");
    assert_eq!(rl.path, "/a");
}

#[test]
fn content_length_header() {
    let mut h = HeaderSummary::new();
    h.observe("Content-Length: 42\r\n");
    assert_eq!(h.content_length, 42);
    assert!(!h.chunked);
    assert_eq!(h.framing(), BodyFraming::Length(42));
}

#[test]
fn content_length_any_case_and_last_wins() {
    let mut h = HeaderSummary::new();
    h.observe("CONTENT-LENGTH:7\r\n");
    assert_eq!(h.content_length, 7);
    h.observe("content-length: +12 \r\n");
    assert_eq!(h.content_length, 12);
    h.observe("Content-Length: twelve\r\n");
    assert_eq!(h.content_length, 0);
}

#[test]
fn content_length_value_stops_at_second_colon() {
    let mut h = HeaderSummary::new();
    h.observe("Content-Length: 5:6\r\n");
    assert_eq!(h.content_length, 5);
}

#[test]
fn content_length_overflow_is_zero() {
    let mut h = HeaderSummary::new();
    h.observe("Content-Length: 99999999999999999999999999\r\n");
    assert_eq!(h.content_length, 0);
}

#[test]
fn other_headers_leave_length() {
    let mut h = HeaderSummary::new();
    h.observe("Content-Length: 3\r\n");
    h.observe("Host: localhost\r\n");
    h.observe("X-Content-Length: 9\r\n");
    assert_eq!(h.content_length, 3);
}

#[test]
fn chunked_header() {
    let mut h = HeaderSummary::new();
    h.observe("Transfer-Encoding: chunked\r\n");
    assert!(h.chunked);
    assert_eq!(h.framing(), BodyFraming::Chunked);
}

#[test]
fn chunked_needs_both_words() {
    let mut h = HeaderSummary::new();
    h.observe("Transfer-Encoding: gzip\r\n");
    assert!(!h.chunked);
    h.observe("X-Note: chunked\r\n");
    assert!(!h.chunked);
    assert_eq!(h.framing(), BodyFraming::Empty);
}

#[test]
fn chunked_with_kelvin_sign_folds_to_k() {
    // to_lowercase turns KELVIN SIGN into 'k'
    let mut h = HeaderSummary::new();
    h.observe("TRANSFER-ENCODING: CHUN\u{212A}ED\r\n");
    assert!(h.chunked);
}

#[test]
fn length_wins_over_chunked() {
    let mut h = HeaderSummary::new();
    h.observe("Transfer-Encoding: chunked\r\n");
    h.observe("Content-Length: 10\r\n");
    assert_eq!(h.framing(), BodyFraming::Length(10));
}

#[test]
fn header_end() {
    assert!(ends_headers("\r\n"));
    assert!(ends_headers(""));
    assert!(!ends_headers("Host: x\r\n"));
}

#[test]
fn chunk_sizes() {
    assert_eq!(chunk_size("1a\r\n"), 26);
    assert_eq!(chunk_size("FF\r\n"), 255);
    assert_eq!(chunk_size("+10\r\n"), 16);
    assert_eq!(chunk_size("0\r\n"), 0);
    assert_eq!(chunk_size("zz\r\n"), 0);
    assert_eq!(chunk_size("+\r\n"), 0);
    assert_eq!(chunk_size("-1\r\n"), 0);
    assert_eq!(chunk_size("1a;ext=1\r\n"), 0);
    assert_eq!(chunk_size("ffffffffffffffffffffffff\r\n"), 0);
}

#[test]
fn routes() {
    assert_eq!(route("GET", "/api/hello"), Route::Hello { head: false });
    assert_eq!(route("HEAD", "/api/hello"), Route::Hello { head: true });
    assert_eq!(route("GET", "/v1/models"), Route::Models);
    assert_eq!(route("GET", "/models"), Route::Models);
    assert_eq!(route("POST", "/v1/messages?beta=true"), Route::Messages);
    assert_eq!(route("POST", "/messages/count_tokens"), Route::Messages);
    assert_eq!(route("OPTIONS", "/anything"), Route::Preflight);
    assert_eq!(route("POST", "/v1/models"), Route::NotFound);
    assert_eq!(route("GET", "/v1/messages"), Route::NotFound);
    assert_eq!(route("get", "/models"), Route::NotFound);
}

#[test]
fn json_response_counts_bytes() {
    let r = json_response("200 OK", "{\"a\":\"é\"}");
    assert_eq!(
        r,
        "HTTP/1.1 200 OK\r\nContent-Type: application/json\r\nContent-Length: 10\r\n\r\n{\"a\":\"é\"}"
    );
}

#[test]
fn hello_responses() {
    assert_eq!(
        hello_response(false, 4321),
        "HTTP/1.1 200 OK\r\nContent-Type: application/json\r\nContent-Length: 15\r\nx-request-id: ccp-4321\r\n\r\n{\"status\":\"ok\"}"
    );
    assert_eq!(
        hello_response(true, 7),
        "HTTP/1.1 200 OK\r\nContent-Type: application/json\r\nContent-Length: 15\r\nx-request-id: ccp-7\r\n\r\n"
    );
}

#[test]
fn models_response_text() {
    let r = models_response();
    let expected = format!(
        "HTTP/1.1 200 OK\r\nContent-Type: application/json\r\nContent-Length: {}\r\n\r\n{}",
        MODELS_BODY.len(),
        MODELS_BODY
    );
    assert_eq!(r, expected);
    assert!(MODELS_BODY.contains("\"id\":\"cursor-auto\""));
}

#[test]
fn agent_error_response_text() {
    let r = agent_error_response("No such file or directory (os error 2)");
    let body = "{\"error\":\"agent: No such file or directory (os error 2)\"}";
    assert_eq!(
        r,
        format!(
            "HTTP/1.1 500\r\nContent-Type: application/json\r\nContent-Length: {}\r\n\r\n{}",
            body.len(),
            body
        )
    );
}

#[test]
fn fixed_responses() {
    assert!(PREFLIGHT_RESPONSE.starts_with("HTTP/1.1 204 No Content\r\n"));
    assert!(PREFLIGHT_RESPONSE.ends_with("Content-Length: 0\r\n\r\n"));
    assert_eq!(NOT_FOUND_RESPONSE, "HTTP/1.1 404 Not Found\r\nContent-Length: 2\r\n\r\n{}");
}

#[test]
fn announced_length_is_read_back() {
    let body = "{\"text\":\"naïve ☃\"}";
    let r = json_response("200 OK", body);
    let line = r.split("\r\n").find(|l| l.starts_with("Content-Length")).unwrap();
    let mut h = HeaderSummary::new();
    h.observe(&format!("{line}\r\n"));
    assert_eq!(h.content_length, body.len());
}

use cursor_bridge::http::{NextRead, ReadPhase, RequestReader};

fn feed(reader: &mut RequestReader, input: &[&str]) {
    for item in input {
        match reader.next_read() {
            NextRead::Line => reader.on_line(Some(item)),
            NextRead::Bytes(_) => reader.on_bytes(item.as_bytes()),
            NextRead::Stop => panic!("reader stopped early"),
        }
    }
}

#[test]
fn reader_with_length_body() {
    let mut r = RequestReader::new();
    feed(&mut r, &["POST /v1/messages HTTP/1.1\r\n", "Content-Length: 5\r\n", "Host: x\r\n", "\r\n"]);
    assert_eq!(r.next_read(), NextRead::Bytes(5));
    r.on_bytes(b"hello");
    assert_eq!(r.next_read(), NextRead::Stop);
    let rl = r.request.unwrap();
    assert_eq!((rl.method.as_str(), rl.path.as_str()), ("POST", "/v1/messages"));
    assert_eq!(r.body, b"hello".to_vec());
}

#[test]
fn reader_with_chunked_body() {
    let mut r = RequestReader::new();
    feed(
        &mut r,
        &[
            "POST /messages HTTP/1.1\r\n",
            "Transfer-Encoding: chunked\r\n",
            "\r\n",
            "4\r\n",
            "Wiki",
            "\r\n",
            "5\r\n",
            "pedia",
            "\r\n",
            "0\r\n",
        ],
    );
    assert_eq!(r.phase, ReadPhase::Done);
    assert_eq!(r.body, b"Wikipedia".to_vec());
}

#[test]
fn reader_headers_end_at_eof() {
    let mut r = RequestReader::new();
    feed(&mut r, &["GET /api/hello HTTP/1.1\r\n", "Host: x\r\n"]);
    r.on_line(None);
    assert_eq!(r.next_read(), NextRead::Stop);
    assert!(r.body.is_empty());
    assert!(r.request.is_some());
}

#[test]
fn reader_drops_bad_first_line() {
    let mut r = RequestReader::new();
    r.on_line(Some("\r\n"));
    assert_eq!(r.next_read(), NextRead::Stop);
    assert!(r.request.is_none());
    let mut r = RequestReader::new();
    r.on_line(None);
    assert!(r.request.is_none());
    assert_eq!(r.phase, ReadPhase::Done);
}

#[test]
fn reader_chunk_stream_cut_short() {
    let mut r = RequestReader::new();
    feed(&mut r, &["POST /messages HTTP/1.1\r\n", "transfer-encoding: CHUNKED\r\n", "\r\n", "3\r\n", "abc"]);
    assert_eq!(r.phase, ReadPhase::ChunkEnd);
    r.on_line(None);
    assert_eq!(r.phase, ReadPhase::ChunkSize);
    r.on_line(None);
    assert_eq!(r.phase, ReadPhase::Done);
    assert_eq!(r.body, b"abc".to_vec());
}

fn chunked(chunks: &[&str]) -> Vec<String> {
    let mut out = Vec::new();
    for c in chunks {
        out.push(format!("{:x}\r\n", c.len()));
        out.push(c.to_string());
        out.push("\r\n".to_string());
    }
    out.push("0\r\n".to_string());
    out
}

#[test]
fn chunked_decoding_undoes_encoding() {
    let chunks = ["The quick brown fox ", "jumps over", " the lazy dog, and then keeps going on and on for more than sixteen bytes"];
    let mut r = RequestReader::new();
    let mut input: Vec<String> = vec!["POST /v1/messages HTTP/1.1\r\n".into(), "Transfer-Encoding: chunked\r\n".into(), "\r\n".into()];
    input.extend(chunked(&chunks));
    let refs: Vec<&str> = input.iter().map(|s| s.as_str()).collect();
    feed(&mut r, &refs);
    assert_eq!(r.next_read(), NextRead::Stop);
    let joined: String = chunks.concat();
    assert_eq!(r.body, joined.as_bytes().to_vec());

    let mut by_length = RequestReader::new();
    let len_line = format!("Content-Length: {}\r\n", joined.len());
    feed(&mut by_length, &["POST /v1/messages HTTP/1.1\r\n", &len_line, "\r\n", &joined]);
    assert_eq!(by_length.body, r.body);
}
