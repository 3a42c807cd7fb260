//! JSON text of the Anthropic messages API: quoted strings (through `serde_json`)
//! and the objects that the proxy sends, with their keys in the sorted order in
//! which `serde_json` writes a `Value` object.
use vstd::prelude::*;

use crate::number::{decimal_text, hex_digit, push_decimal};

verus! {

/// `serde_json`'s error type.
#[verifier::external_type_specification]
#[verifier::external_body]
pub struct ExJsonError(serde_json::Error);

/// How `c` stands inside a JSON string: `"` and `\` and the control characters
/// below U+0020 escaped (with a short form where there is one), all else as it is.
pub open spec fn escape_char(c: char) -> Seq<char> {
    let u = c as u32;
    if c == '"' {
        seq!['\\', '"']
    } else if c == '\\' {
        seq!['\\', '\\']
    } else if u == 8 {
        seq!['\\', 'b']
    } else if u == 9 {
        seq!['\\', 't']
    } else if u == 10 {
        seq!['\\', 'n']
    } else if u == 12 {
        seq!['\\', 'f']
    } else if u == 13 {
        seq!['\\', 'r']
    } else if u < 0x20 {
        seq!['\\', 'u', '0', '0', hex_digit((u / 16) as nat), hex_digit((u % 16) as nat)]
    } else {
        seq![c]
    }
}

/// `s` with each character escaped (see `escape_char`).
pub open spec fn escape_text(s: Seq<char>) -> Seq<char>
    decreases s.len(),
{
    if s.len() == 0 {
        Seq::empty()
    } else {
        escape_text(s.drop_last()) + escape_char(s.last())
    }
}

/// `s` as a JSON string literal.
pub open spec fn json_string_text(s: Seq<char>) -> Seq<char> {
    seq!['"'] + escape_text(s) + seq!['"']
}

/// `serde_json::to_string` on a `str`. Its source writes `"`, then each run of
/// characters that need no escape as it is and each other character as
/// `escape_char` says (`format_escaped_str` and the `ESCAPE` table of its
/// `ser.rs`), then `"`; into a `Vec<u8>` that cannot fail, so the result is `Ok`.
#[verifier::external_body]
fn serde_quote(s: &str) -> (r: Result<String, serde_json::Error>)
    ensures
        r is Ok,
        r matches Ok(t) ==> t@ == json_string_text(s@),
{
    serde_json::to_string(s)
}

/// Appends `s` to `out` as a JSON string literal.
pub fn push_json_string(out: &mut String, s: &str)
    ensures
        final(out)@ == old(out)@ + json_string_text(s@),
{
    match serde_quote(s) {
        Ok(t) => out.append(t.as_str()),
        Err(_) => {},
    }
}

/// `s` as a JSON string literal.
pub fn json_string(s: &str) -> (r: String)
    ensures
        r@ == json_string_text(s@),
{
    let mut r = String::new();
    push_json_string(&mut r, s);
    r
}

/// The `usage` object of a message.
pub open spec fn usage_json(input: nat, output: nat) -> Seq<char> {
    "{\"input_tokens\":"@ + decimal_text(input) + ",\"output_tokens\":"@ + decimal_text(output)
        + "}"@
}

fn push_usage(out: &mut String, input: u64, output: u64)
    ensures
        final(out)@ == old(out)@ + usage_json(input as nat, output as nat),
{
    out.append("{\"input_tokens\":");
    push_decimal(out, input);
    out.append(",\"output_tokens\":");
    push_decimal(out, output);
    out.append("}");
    assert(out@ =~= old(out)@ + usage_json(input as nat, output as nat));
}

/// The `message_start` event: an empty assistant message `id` from `model`.
pub open spec fn message_start_json(id: Seq<char>, model: Seq<char>) -> Seq<char> {
    "{\"message\":{\"content\":[],\"id\":"@ + json_string_text(id) + ",\"model\":"@
        + json_string_text(model)
        + ",\"role\":\"assistant\",\"stop_reason\":null,\"type\":\"message\",\"usage\":"@
        + usage_json(0, 0) + "},\"type\":\"message_start\"}"@
}

pub fn message_start(id: &str, model: &str) -> (r: String)
    ensures
        r@ == message_start_json(id@, model@),
{
    let mut r = String::new();
    r.append("{\"message\":{\"content\":[],\"id\":");
    push_json_string(&mut r, id);
    r.append(",\"model\":");
    push_json_string(&mut r, model);
    r.append(",\"role\":\"assistant\",\"stop_reason\":null,\"type\":\"message\",\"usage\":");
    push_usage(&mut r, 0, 0);
    r.append("},\"type\":\"message_start\"}");
    assert(r@ =~= message_start_json(id@, model@));
    r
}

/// The `content_block_start` event of a text block that opens with `text`.
pub open spec fn block_start_json(text: Seq<char>) -> Seq<char> {
    "{\"content_block\":{\"text\":"@ + json_string_text(text)
        + ",\"type\":\"text\"},\"index\":0,\"type\":\"content_block_start\"}"@
}

pub fn block_start(text: &str) -> (r: String)
    ensures
        r@ == block_start_json(text@),
{
    let mut r = String::new();
    r.append("{\"content_block\":{\"text\":");
    push_json_string(&mut r, text);
    r.append(",\"type\":\"text\"},\"index\":0,\"type\":\"content_block_start\"}");
    assert(r@ =~= block_start_json(text@));
    r
}

/// The `content_block_delta` event that adds `text`.
pub open spec fn block_delta_json(text: Seq<char>) -> Seq<char> {
    "{\"delta\":{\"text\":"@ + json_string_text(text)
        + ",\"type\":\"text_delta\"},\"index\":0,\"type\":\"content_block_delta\"}"@
}

pub fn block_delta(text: &str) -> (r: String)
    ensures
        r@ == block_delta_json(text@),
{
    let mut r = String::new();
    r.append("{\"delta\":{\"text\":");
    push_json_string(&mut r, text);
    r.append(",\"type\":\"text_delta\"},\"index\":0,\"type\":\"content_block_delta\"}");
    assert(r@ =~= block_delta_json(text@));
    r
}

/// The `content_block_stop` event.
pub const BLOCK_STOP_JSON: &'static str = "{\"index\":0,\"type\":\"content_block_stop\"}";

/// The `message_stop` event.
pub const MESSAGE_STOP_JSON: &'static str = "{\"type\":\"message_stop\"}";

/// The `message_delta` event that ends the turn with the given token counts.
pub open spec fn message_delta_json(input: nat, output: nat) -> Seq<char> {
    "{\"delta\":{\"stop_reason\":\"end_turn\"},\"type\":\"message_delta\",\"usage\":"@ + usage_json(
        input,
        output,
    ) + "}"@
}

pub fn message_delta(input: u64, output: u64) -> (r: String)
    ensures
        r@ == message_delta_json(input as nat, output as nat),
{
    let mut r = String::new();
    r.append("{\"delta\":{\"stop_reason\":\"end_turn\"},\"type\":\"message_delta\",\"usage\":");
    push_usage(&mut r, input, output);
    r.append("}");
    assert(r@ =~= message_delta_json(input as nat, output as nat));
    r
}

/// A whole assistant message `id` from `model` holding the text `text`.
pub open spec fn message_json(
    id: Seq<char>,
    model: Seq<char>,
    text: Seq<char>,
    input: nat,
    output: nat,
) -> Seq<char> {
    "{\"content\":[{\"text\":"@ + json_string_text(text) + ",\"type\":\"text\"}],\"id\":"@
        + json_string_text(id) + ",\"model\":"@ + json_string_text(model)
        + ",\"role\":\"assistant\",\"stop_reason\":\"end_turn\",\"type\":\"message\",\"usage\":"@
        + usage_json(input, output) + "}"@
}

pub fn message(id: &str, model: &str, text: &str, input: u64, output: u64) -> (r: String)
    ensures
        r@ == message_json(id@, model@, text@, input as nat, output as nat),
{
    let mut r = String::new();
    r.append("{\"content\":[{\"text\":");
    push_json_string(&mut r, text);
    r.append(",\"type\":\"text\"}],\"id\":");
    push_json_string(&mut r, id);
    r.append(",\"model\":");
    push_json_string(&mut r, model);
    r.append(",\"role\":\"assistant\",\"stop_reason\":\"end_turn\",\"type\":\"message\",\"usage\":");
    push_usage(&mut r, input, output);
    r.append("}");
    assert(r@ =~= message_json(id@, model@, text@, input as nat, output as nat));
    r
}

/// A server-sent event of type `kind` carrying `data`.
pub open spec fn sse_event_text(kind: Seq<char>, data: Seq<char>) -> Seq<char> {
    "event: "@ + kind + "\n"@ + "data: "@ + data + "\n\n"@
}

pub fn sse_event(kind: &str, data: &str) -> (r: String)
    ensures
        r@ == sse_event_text(kind@, data@),
{
    let mut r = String::new();
    r.append("event: ");
    r.append(kind);
    r.append("\n");
    r.append("data: ");
    r.append(data);
    r.append("\n\n");
    assert(r@ =~= sse_event_text(kind@, data@));
    r
}

/// The line that closes an event stream.
pub const DONE_LINE: &'static str = "data: [DONE]\n\n";

// ---------------------------------------------------------------------------
// Single lines
/// Whether `s` holds no line break (`\n` or `\r`).
pub open spec fn single_line(s: Seq<char>) -> bool {
    forall|i: int| 0 <= i < s.len() ==> (#[trigger] s[i]) != '\n' && s[i] != '\r'
}

proof fn lemma_single_line_concat(a: Seq<char>, b: Seq<char>)
    ensures
        single_line(a + b) == (single_line(a) && single_line(b)),
{
    if single_line(a) && single_line(b) {
        assert forall|i: int| 0 <= i < (a + b).len() implies (#[trigger] (a + b)[i]) != '\n' && (a
            + b)[i] != '\r' by {
            if i >= a.len() {
                assert((a + b)[i] == b[i - a.len()]);
            }
        }
    }
    if single_line(a + b) {
        assert forall|i: int| 0 <= i < a.len() implies (#[trigger] a[i]) != '\n' && a[i] != '\r' by {
            assert((a + b)[i] == a[i]);
        }
        assert forall|i: int| 0 <= i < b.len() implies (#[trigger] b[i]) != '\n' && b[i] != '\r' by {
            assert((a + b)[i + a.len()] == b[i]);
        }
    }
}

proof fn lemma_escape_single_line(s: Seq<char>)
    ensures
        single_line(escape_text(s)),
    decreases s.len(),
{
    if s.len() > 0 {
        lemma_escape_single_line(s.drop_last());
        let c = s.last();
        let u = c as u32;
        let t = seq!['0', '1', '2', '3', '4', '5', '6', '7', '8', '9', 'a', 'b', 'c', 'd', 'e', 'f'];
        assert(t[0] == '0' && t[1] == '1');
        assert(forall|d: int| 0 <= d < 16 ==> #[trigger] t[d] != '\n' && t[d] != '\r') by {
            assert(t[2] == '2' && t[3] == '3' && t[4] == '4' && t[5] == '5' && t[6] == '6');
            assert(t[7] == '7' && t[8] == '8' && t[9] == '9' && t[10] == 'a' && t[11] == 'b');
            assert(t[12] == 'c' && t[13] == 'd' && t[14] == 'e' && t[15] == 'f');
        }
        if u < 0x20 && c != '"' && c != '\\' && u != 8 && u != 9 && u != 10 && u != 12 && u != 13 {
            assert(hex_digit((u / 16) as nat) == t[(u / 16) as int]);
            assert(hex_digit((u % 16) as nat) == t[(u % 16) as int]);
        }
        assert(single_line(escape_char(c)));
        lemma_single_line_concat(escape_text(s.drop_last()), escape_char(c));
    }
}

proof fn lemma_decimal_single_line(n: nat)
    ensures
        single_line(decimal_text(n)),
{
    crate::number::decimal_chars(n);
    let d = decimal_text(n);
    assert forall|i: int| 0 <= i < d.len() implies (#[trigger] d[i]) != '\n' && d[i] != '\r' by {
        assert(48 <= d[i] as u32 <= 57);
    }
}

/// A JSON string literal is one line: line breaks inside are escaped.
pub proof fn json_string_single_line(s: Seq<char>)
    ensures
        single_line(json_string_text(s)),
{
    lemma_escape_single_line(s);
    lemma_single_line_concat(seq!['"'], escape_text(s));
    lemma_single_line_concat(seq!['"'] + escape_text(s), seq!['"']);
}

/// The data of every event that the proxy sends is one line, whatever the texts,
/// ids, models and counts put in, so each event is its `event:` line, its one
/// `data:` line and an empty line.
pub proof fn event_data_single_line(id: Seq<char>, model: Seq<char>, text: Seq<char>, input: nat, output: nat)
    ensures
        single_line(message_start_json(id, model)),
        single_line(block_start_json(text)),
        single_line(block_delta_json(text)),
        single_line(BLOCK_STOP_JSON@),
        single_line(message_delta_json(input, output)),
        single_line(MESSAGE_STOP_JSON@),
        single_line(message_json(id, model, text, input, output)),
{
    reveal_strlit("{\"input_tokens\":");
    reveal_strlit(",\"output_tokens\":");
    reveal_strlit("}");
    reveal_strlit("{\"message\":{\"content\":[],\"id\":");
    reveal_strlit(",\"model\":");
    reveal_strlit(",\"role\":\"assistant\",\"stop_reason\":null,\"type\":\"message\",\"usage\":");
    reveal_strlit("},\"type\":\"message_start\"}");
    reveal_strlit("{\"content_block\":{\"text\":");
    reveal_strlit(",\"type\":\"text\"},\"index\":0,\"type\":\"content_block_start\"}");
    reveal_strlit("{\"delta\":{\"text\":");
    reveal_strlit(",\"type\":\"text_delta\"},\"index\":0,\"type\":\"content_block_delta\"}");
    reveal_strlit("{\"index\":0,\"type\":\"content_block_stop\"}");
    reveal_strlit("{\"type\":\"message_stop\"}");
    reveal_strlit("{\"delta\":{\"stop_reason\":\"end_turn\"},\"type\":\"message_delta\",\"usage\":");
    reveal_strlit("{\"content\":[{\"text\":");
    reveal_strlit(",\"type\":\"text\"}],\"id\":");
    reveal_strlit(",\"role\":\"assistant\",\"stop_reason\":\"end_turn\",\"type\":\"message\",\"usage\":");
    json_string_single_line(id);
    json_string_single_line(model);
    json_string_single_line(text);
    lemma_decimal_single_line(input);
    lemma_decimal_single_line(output);
    lemma_decimal_single_line(0);
    assert forall|a: Seq<char>, b: Seq<char>| #![trigger a + b] single_line(a) && single_line(b)
        implies single_line(a + b) by {
        lemma_single_line_concat(a, b);
    }
}

} // verus!
