//! The agent side: how it is started, and how its stream of JSON events becomes
//! either a stream of server-sent events or one whole message.
use vstd::prelude::*;

use crate::http::{json_response, json_response_text};
use crate::json::{
    block_delta, block_delta_json, block_start, block_start_json, message, message_delta,
    message_delta_json, message_json, sse_event, sse_event_text, BLOCK_STOP_JSON, DONE_LINE,
    MESSAGE_STOP_JSON,
};
use crate::number::{decimal_text, push_decimal};
use crate::prompt::TextValue;
use crate::text::{all_white, is_blank, same_text, trim_text};

verus! {

/// One line of the agent's output, read as a JSON object.
pub struct AgentEvent {
    /// Its `"type"`, when that is a string.
    pub kind: Option<String>,
    /// Its `"message"."content"`.
    pub content: TextValue,
    /// Its `"usage"."inputTokens"`, when that is an unsigned integer.
    pub input_tokens: Option<u64>,
    /// Its `"usage"."outputTokens"`, when that is an unsigned integer.
    pub output_tokens: Option<u64>,
}

/// What an event says, as values: its type, the texts of its content blocks
/// (when its content is an array), and its input and output token counts.
pub type EventFields = (Option<Seq<char>>, Option<Seq<Option<Seq<char>>>>, Option<u64>, Option<u64>);

/// The text of an optional string.
pub open spec fn opt_text(o: Option<String>) -> Option<Seq<char>> {
    match o {
        Some(s) => Some(s@),
        None => None,
    }
}

impl View for AgentEvent {
    type V = EventFields;

    open spec fn view(&self) -> EventFields {
        (
            opt_text(self.kind),
            match self.content {
                TextValue::Array(bs) => Some(bs@.map_values(|b: Option<String>| opt_text(b))),
                _ => None,
            },
            self.input_tokens,
            self.output_tokens,
        )
    }
}

/// Whether the event's type is `k`.
pub open spec fn has_kind(ev: EventFields, k: Seq<char>) -> bool {
    ev.0 == Some(k)
}

/// Whether the event carries assistant text.
pub open spec fn is_assistant(ev: EventFields) -> bool {
    has_kind(ev, "assistant"@)
}

/// Whether the event closes the agent's turn.
pub open spec fn is_result(ev: EventFields) -> bool {
    has_kind(ev, "result"@)
}

/// The count `n`, or 0 when there is none.
pub open spec fn count_or_zero(n: Option<u64>) -> nat {
    match n {
        Some(n) => n as nat,
        None => 0,
    }
}

/// Whether no block holds a text.
pub open spec fn no_block_text(blocks: Seq<Option<Seq<char>>>) -> bool {
    forall|i: int| 0 <= i < blocks.len() ==> blocks[i] is None
}

proof fn lemma_no_block_text_step(blocks: Seq<Option<Seq<char>>>, i: int)
    requires
        0 <= i < blocks.len(),
    ensures
        no_block_text(blocks.take(i + 1)) == (no_block_text(blocks.take(i)) && blocks[i] is None),
{
    let before = blocks.take(i);
    let next = blocks.take(i + 1);
    if no_block_text(before) && blocks[i] is None {
        assert forall|k: int| 0 <= k < next.len() implies next[k] is None by {
            if k < i {
                assert(next[k] == before[k]);
            }
        }
    }
    if !no_block_text(before) {
        let k = choose|k: int| 0 <= k < before.len() && !(before[k] is None);
        assert(next[k] == before[k]);
    }
    if !(blocks[i] is None) {
        assert(!(next[i] is None));
    }
}

/// What `serde_json::from_str::<serde_json::Value>(line)` gives, read as an event:
/// `None` when the line is no JSON; else its `"type"` when a string, the
/// `"text"` strings of the elements of its `"message"."content"` when that is an
/// array, and its `"usage"."inputTokens"` and `"usage"."outputTokens"` when
/// unsigned integers.
pub uninterp spec fn agent_line_fields(line: Seq<char>) -> Option<
    (Option<Seq<char>>, Option<Seq<Option<Seq<char>>>>, Option<u64>, Option<u64>),
>;

/// Reads one line of the agent's output through `serde_json::from_str` into a
/// `serde_json::Value` and picks out of it, by `Value`'s indexing and `as_str`,
/// `as_array` and `as_u64`, what the proxy uses; `None` when the line is no JSON.
/// What the parse gives is named, not stated: `agent_line_fields`. `from_str`
/// depends on the line alone and returns an error rather than panic (its depth
/// limit included).
#[verifier::external_body]
pub fn parse_agent_line(line: &str) -> (r: Option<AgentEvent>)
    ensures
        r is None ==> agent_line_fields(line@) is None,
        r matches Some(ev) ==> agent_line_fields(line@) == Some(ev@),
{
    match serde_json::from_str::<serde_json::Value>(line) {
        Ok(v) => Some(AgentEvent {
            kind: v["type"].as_str().map(String::from),
            content: match v["message"]["content"].as_array() {
                Some(a) => TextValue::Array(a.iter().map(|b| b["text"].as_str().map(String::from)).collect()),
                None => TextValue::Other,
            },
            input_tokens: v["usage"]["inputTokens"].as_u64(),
            output_tokens: v["usage"]["outputTokens"].as_u64(),
        }),
        Err(_) => None,
    }
}

/// The event that a line of the agent's output carries: none for a blank line
/// or a line that is no JSON.
pub open spec fn line_event(line: Seq<char>) -> Option<EventFields> {
    if trim_text(line).len() == 0 {
        None
    } else {
        agent_line_fields(line)
    }
}

fn kind_is(ev: &AgentEvent, k: &str) -> (r: bool)
    ensures
        r == has_kind(ev@, k@),
{
    match &ev.kind {
        Some(s) => same_text(s.as_str(), k),
        None => false,
    }
}

/// The id of the message answered by the process `pid`.
pub open spec fn message_id_text(pid: nat) -> Seq<char> {
    "msg_"@ + decimal_text(pid)
}

pub fn message_id(pid: u32) -> (r: String)
    ensures
        r@ == message_id_text(pid as nat),
{
    let mut r = String::new();
    r.append("msg_");
    push_decimal(&mut r, pid as u64);
    r
}

// ---------------------------------------------------------------------------
// Streaming
/// What the proxy writes to a streaming client.
pub enum FrameKind {
    /// `content_block_start`, opening the text block with this text.
    BlockStart(Seq<char>),
    /// `content_block_delta` with this text.
    BlockDelta(Seq<char>),
    /// `content_block_stop`.
    BlockStop,
    /// `message_delta` with these input and output token counts.
    MessageDelta(nat, nat),
    /// `message_stop`.
    MessageStop,
    /// The closing `[DONE]` line.
    Done,
}

/// The text written for a frame.
pub open spec fn frame_text(k: FrameKind) -> Seq<char> {
    match k {
        FrameKind::BlockStart(t) => sse_event_text("content_block_start"@, block_start_json(t)),
        FrameKind::BlockDelta(t) => sse_event_text("content_block_delta"@, block_delta_json(t)),
        FrameKind::BlockStop => sse_event_text("content_block_stop"@, BLOCK_STOP_JSON@),
        FrameKind::MessageDelta(i, o) => sse_event_text("message_delta"@, message_delta_json(i, o)),
        FrameKind::MessageStop => sse_event_text("message_stop"@, MESSAGE_STOP_JSON@),
        FrameKind::Done => DONE_LINE@,
    }
}

/// Whether a failure to write the frame ends the stream (so it is for text frames).
pub open spec fn is_text_frame(k: FrameKind) -> bool {
    k is BlockStart || k is BlockDelta
}

/// A piece of the event stream, ready to be written.
pub struct Frame {
    pub text: String,
    /// When writing it fails, the stream is given up.
    pub must_deliver: bool,
}

/// Whether `frames` are the frames of `kinds`, in order.
pub open spec fn frames_of(frames: Seq<Frame>, kinds: Seq<FrameKind>) -> bool {
    &&& frames.len() == kinds.len()
    &&& forall|i: int|
        0 <= i < kinds.len() ==> (#[trigger] frames[i]).text@ == frame_text(kinds[i])
            && frames[i].must_deliver == is_text_frame(kinds[i])
}

/// The frames for the text blocks `blocks` when a block was `started` before: each
/// text becomes a delta, and the first text of the turn also opens the block.
pub open spec fn block_frames(started: bool, blocks: Seq<Option<Seq<char>>>) -> Seq<FrameKind>
    decreases blocks.len(),
{
    if blocks.len() == 0 {
        Seq::empty()
    } else {
        let prior = block_frames(started, blocks.drop_last());
        match blocks.last() {
            None => prior,
            Some(t) => prior + (if started || !no_block_text(blocks.drop_last()) {
                Seq::empty()
            } else {
                seq![FrameKind::BlockStart(t)]
            }) + seq![FrameKind::BlockDelta(t)],
        }
    }
}

/// The frames that close the message with the given token counts.
pub open spec fn closing_frames(started: bool, input: nat, output: nat) -> Seq<FrameKind> {
    (if started {
        seq![FrameKind::BlockStop]
    } else {
        Seq::empty()
    }) + seq![FrameKind::MessageDelta(input, output), FrameKind::MessageStop, FrameKind::Done]
}

/// The state of a stream: whether the text block was opened, and whether the
/// agent's result was passed on.
pub struct StreamState {
    pub started: bool,
    pub handled: bool,
}

/// The frames for the event `ev` in state (`started`, `handled`).
pub open spec fn event_frames(started: bool, ev: EventFields) -> Seq<FrameKind> {
    if is_assistant(ev) {
        match ev.1 {
            Some(blocks) => block_frames(started, blocks),
            None => Seq::empty(),
        }
    } else if is_result(ev) {
        closing_frames(started, count_or_zero(ev.2), count_or_zero(ev.3))
    } else {
        Seq::empty()
    }
}

/// Whether a text block is open after the event `ev`.
pub open spec fn started_after(started: bool, ev: EventFields) -> bool {
    started || (is_assistant(ev) && match ev.1 {
        Some(blocks) => !no_block_text(blocks),
        None => false,
    })
}

/// Whether the result was passed on after the event `ev`.
pub open spec fn handled_after(handled: bool, ev: EventFields) -> bool {
    handled || (!is_assistant(ev) && is_result(ev))
}

fn text_frame(start: bool, text: &str) -> (r: Frame)
    ensures
        r.text@ == frame_text(
            if start {
                FrameKind::BlockStart(text@)
            } else {
                FrameKind::BlockDelta(text@)
            },
        ),
        r.must_deliver,
{
    if start {
        Frame { text: sse_event("content_block_start", block_start(text).as_str()), must_deliver: true }
    } else {
        Frame { text: sse_event("content_block_delta", block_delta(text).as_str()), must_deliver: true }
    }
}

fn push_closing(frames: &mut Vec<Frame>, started: bool, input: u64, output: u64)
    ensures
        exists|added: Seq<Frame>|
            final(frames)@ == old(frames)@ + added && frames_of(
                added,
                closing_frames(started, input as nat, output as nat),
            ),
{
    let ghost before = frames@;
    let ghost kinds = closing_frames(started, input as nat, output as nat);
    if started {
        frames.push(
            Frame { text: sse_event("content_block_stop", BLOCK_STOP_JSON), must_deliver: false },
        );
    }
    frames.push(
        Frame {
            text: sse_event("message_delta", message_delta(input, output).as_str()),
            must_deliver: false,
        },
    );
    frames.push(
        Frame { text: sse_event("message_stop", MESSAGE_STOP_JSON), must_deliver: false },
    );
    frames.push(Frame { text: DONE_LINE.to_owned(), must_deliver: false });
    let ghost added = frames@.subrange(before.len() as int, frames@.len() as int);
    assert(frames@ =~= before + added);
    assert(frames_of(added, kinds));
}

impl StreamState {
    /// A stream before any event.
    pub fn new() -> (r: StreamState)
        ensures
            !r.started,
            !r.handled,
    {
        StreamState { started: false, handled: false }
    }

    /// The frames for one event of the agent, and the state after it.
    pub fn on_event(&mut self, ev: &AgentEvent) -> (r: Vec<Frame>)
        ensures
            frames_of(r@, event_frames(old(self).started, ev@)),
            final(self).started == started_after(old(self).started, ev@),
            final(self).handled == handled_after(old(self).handled, ev@),
    {
        let mut frames: Vec<Frame> = Vec::new();
        if kind_is(ev, "assistant") {
            if let TextValue::Array(blocks) = &ev.content {
                let ghost started0 = self.started;
                let ghost bv = blocks@.map_values(|b: Option<String>| opt_text(b));
                let mut i: usize = 0;
                while i < blocks.len()
                    invariant
                        i <= blocks@.len() == bv.len(),
                        bv == blocks@.map_values(|b: Option<String>| opt_text(b)),
                        self.started == (started0 || !no_block_text(bv.take(i as int))),
                        self.handled == old(self).handled,
                        frames_of(frames@, block_frames(started0, bv.take(i as int))),
                    decreases blocks@.len() - i,
                {
                    let ghost before = bv.take(i as int);
                    let ghost next = bv.take(i + 1);
                    assert(next.drop_last() =~= before);
                    assert(next.last() == bv[i as int]);
                    assert(bv[i as int] == opt_text(blocks@[i as int]));
                    proof {
                        lemma_no_block_text_step(bv, i as int);
                    }
                    match &blocks[i] {
                        Some(t) => {
                            if !self.started {
                                self.started = true;
                                frames.push(text_frame(true, t.as_str()));
                            }
                            frames.push(text_frame(false, t.as_str()));
                        },
                        None => {},
                    }
                    assert(frames_of(frames@, block_frames(started0, next)));
                    i = i + 1;
                }
                assert(bv.take(i as int) =~= bv);
            }
        } else if kind_is(ev, "result") {
            let input = match ev.input_tokens {
                Some(n) => n,
                None => 0,
            };
            let output = match ev.output_tokens {
                Some(n) => n,
                None => 0,
            };
            push_closing(&mut frames, self.started, input, output);
            self.handled = true;
        }
        frames
    }

    /// The frames for one line of the agent's output, and the state after it:
    /// nothing for a blank line or a line that is no JSON.
    pub fn on_line(&mut self, line: &str) -> (r: Vec<Frame>)
        ensures
            line_event(line@) is None ==> {
                &&& r@.len() == 0
                &&& final(self).started == old(self).started
                &&& final(self).handled == old(self).handled
            },
            line_event(line@) matches Some(ev) ==> {
                &&& frames_of(r@, event_frames(old(self).started, ev))
                &&& final(self).started == started_after(old(self).started, ev)
                &&& final(self).handled == handled_after(old(self).handled, ev)
            },
    {
        if is_blank(line) {
            return Vec::new();
        }
        match parse_agent_line(line) {
            Some(ev) => self.on_event(&ev),
            None => Vec::new(),
        }
    }

    /// The frames that close a stream whose agent ended without passing on a
    /// result: none when the result was passed on.
    pub fn finish(&self) -> (r: Vec<Frame>)
        ensures
            frames_of(
                r@,
                if self.handled {
                    Seq::empty()
                } else {
                    closing_frames(self.started, 0, 0)
                },
            ),
    {
        let mut frames: Vec<Frame> = Vec::new();
        if !self.handled {
            push_closing(&mut frames, self.started, 0, 0);
        }
        frames
    }
}

/// The frame that opens a stream: the `message_start` event of message `id` from `model`.
pub fn stream_opening(id: &str, model: &str) -> (r: String)
    ensures
        r@ == sse_event_text("message_start"@, crate::json::message_start_json(id@, model@)),
{
    sse_event("message_start", crate::json::message_start(id, model).as_str())
}

// ---------------------------------------------------------------------------
// Whole answers
/// The texts of `blocks` put together.
pub open spec fn texts_together(blocks: Seq<Option<Seq<char>>>) -> Seq<char>
    decreases blocks.len(),
{
    if blocks.len() == 0 {
        Seq::empty()
    } else {
        texts_together(blocks.drop_last()) + match blocks.last() {
            Some(t) => t,
            None => Seq::empty(),
        }
    }
}

/// The text that the event `ev` adds to the answer.
pub open spec fn event_text(ev: EventFields) -> Seq<char> {
    if is_assistant(ev) {
        match ev.1 {
            Some(blocks) => texts_together(blocks),
            None => Seq::empty(),
        }
    } else {
        Seq::empty()
    }
}

/// An answer collected from the agent's events, to be sent whole.
pub struct Reply {
    pub text: String,
    pub input_tokens: Option<u64>,
    pub output_tokens: Option<u64>,
}

impl Reply {
    /// An answer with no text and no usage yet.
    pub fn new() -> (r: Reply)
        ensures
            r.text@ == Seq::<char>::empty(),
            r.input_tokens is None,
            r.output_tokens is None,
    {
        Reply { text: String::new(), input_tokens: None, output_tokens: None }
    }

    /// Takes one event of the agent into account: its text is added; a result
    /// event sets the usage (the last one counts).
    pub fn on_event(&mut self, ev: &AgentEvent)
        ensures
            final(self).text@ == old(self).text@ + event_text(ev@),
            (final(self).input_tokens, final(self).output_tokens) == (if is_result(ev@) {
                (ev.input_tokens, ev.output_tokens)
            } else {
                (old(self).input_tokens, old(self).output_tokens)
            }),
    {
        if kind_is(ev, "assistant") {
            if let TextValue::Array(blocks) = &ev.content {
                let ghost start = self.text@;
                let ghost bv = blocks@.map_values(|b: Option<String>| opt_text(b));
                let mut i: usize = 0;
                while i < blocks.len()
                    invariant
                        i <= blocks@.len() == bv.len(),
                        bv == blocks@.map_values(|b: Option<String>| opt_text(b)),
                        self.text@ == start + texts_together(bv.take(i as int)),
                        self.input_tokens == old(self).input_tokens,
                        self.output_tokens == old(self).output_tokens,
                    decreases blocks@.len() - i,
                {
                    assert(bv.take(i + 1).drop_last() =~= bv.take(i as int));
                    assert(bv.take(i + 1).last() == opt_text(blocks@[i as int]));
                    match &blocks[i] {
                        Some(t) => self.text.append(t.as_str()),
                        None => {},
                    }
                    assert(self.text@ =~= start + texts_together(bv.take(i + 1)));
                    i = i + 1;
                }
                assert(bv.take(i as int) =~= bv);
            }
        }
        if kind_is(ev, "result") {
            self.input_tokens = ev.input_tokens;
            self.output_tokens = ev.output_tokens;
        }
    }

    /// Takes one line of the agent's output into account: nothing for a blank
    /// line or a line that is no JSON, else its event (see `on_event`).
    pub fn on_line(&mut self, line: &str)
        ensures
            line_event(line@) is None ==> {
                &&& final(self).text@ == old(self).text@
                &&& final(self).input_tokens == old(self).input_tokens
                &&& final(self).output_tokens == old(self).output_tokens
            },
            line_event(line@) matches Some(ev) ==> {
                &&& final(self).text@ == old(self).text@ + event_text(ev)
                &&& (final(self).input_tokens, final(self).output_tokens) == (if is_result(ev) {
                    (ev.2, ev.3)
                } else {
                    (old(self).input_tokens, old(self).output_tokens)
                })
            },
    {
        if is_blank(line) {
            return;
        }
        match parse_agent_line(line) {
            Some(ev) => self.on_event(&ev),
            None => {},
        }
    }

    /// The HTTP response carrying the answer as message `id` from `model`; a
    /// missing token count is 0.
    pub fn response(&self, id: &str, model: &str) -> (r: String)
        ensures
            r@ == json_response_text(
                "200 OK"@,
                message_json(
                    id@,
                    model@,
                    self.text@,
                    match self.input_tokens {
                        Some(n) => n as nat,
                        None => 0,
                    },
                    match self.output_tokens {
                        Some(n) => n as nat,
                        None => 0,
                    },
                ),
            ),
    {
        let input = match self.input_tokens {
            Some(n) => n,
            None => 0,
        };
        let output = match self.output_tokens {
            Some(n) => n,
            None => 0,
        };
        let body = message(id, model, self.text.as_str(), input, output);
        json_response("200 OK", body.as_str())
    }
}

// ---------------------------------------------------------------------------
// Starting the agent
/// Where the agent is found when `AGENT_PATH` does not say.
pub const DEFAULT_AGENT_PATH: &'static str = "agent";

/// The agent's program: the configured one, else the default path.
pub fn agent_program(configured: Option<String>) -> (r: String)
    ensures
        r@ == (match configured {
            Some(p) => p@,
            None => DEFAULT_AGENT_PATH@,
        }),
{
    match configured {
        Some(p) => p,
        None => DEFAULT_AGENT_PATH.to_owned(),
    }
}

/// The agent's arguments for `prompt`: ask mode, printed JSON events, automatic
/// model, trusted workspace, and the prompt last.
pub open spec fn agent_arg_texts(prompt: Seq<char>) -> Seq<Seq<char>> {
    seq![
        "--mode"@,
        "ask"@,
        "--print"@,
        "--output-format"@,
        "stream-json"@,
        "--model"@,
        "auto"@,
        "--trust"@,
        prompt,
    ]
}

pub fn agent_args(prompt: &str) -> (r: Vec<String>)
    ensures
        r@.map_values(|s: String| s@) == agent_arg_texts(prompt@),
{
    let mut r: Vec<String> = Vec::new();
    r.push("--mode".to_owned());
    r.push("ask".to_owned());
    r.push("--print".to_owned());
    r.push("--output-format".to_owned());
    r.push("stream-json".to_owned());
    r.push("--model".to_owned());
    r.push("auto".to_owned());
    r.push("--trust".to_owned());
    r.push(prompt.to_owned());
    assert(r@.map_values(|s: String| s@) =~= agent_arg_texts(prompt@));
    r
}

// ---------------------------------------------------------------------------
// What holds of every stream
/// The state and the frames after the events `evs`, from state (`started`, `handled`).
pub open spec fn run_events(started: bool, handled: bool, evs: Seq<EventFields>) -> (
    bool,
    bool,
    Seq<FrameKind>,
)
    decreases evs.len(),
{
    if evs.len() == 0 {
        (started, handled, Seq::empty())
    } else {
        let (s, h, ks) = run_events(started, handled, evs.drop_last());
        (started_after(s, evs.last()), handled_after(h, evs.last()), ks + event_frames(
            s,
            evs.last(),
        ))
    }
}

/// Whether `ks` opens a text block somewhere.
pub open spec fn opens_block(ks: Seq<FrameKind>) -> bool {
    exists|i: int| 0 <= i < ks.len() && ks[i] is BlockStart
}

/// Whether `ks` opens the text block at most once, before any of its deltas and
/// before its end.
pub open spec fn well_bracketed(ks: Seq<FrameKind>) -> bool {
    &&& forall|i: int, j: int|
        0 <= i < ks.len() && 0 <= j < ks.len() && ks[i] is BlockStart && ks[j] is BlockStart
            ==> i == j
    &&& forall|j: int|
        0 <= j < ks.len() && (ks[j] is BlockDelta || ks[j] is BlockStop) ==> exists|i: int|
            0 <= i < j && ks[i] is BlockStart
}

proof fn lemma_block_frames(started: bool, blocks: Seq<Option<Seq<char>>>)
    ensures
        ({
            let bf = block_frames(started, blocks);
            &&& opens_block(bf) == (!started && !no_block_text(blocks))
            &&& forall|k: int| 0 <= k < bf.len() ==> !(bf[k] is BlockStop)
            &&& forall|k: int| 0 <= k < bf.len() && bf[k] is BlockStart ==> k == 0
            &&& forall|k: int| 0 <= k < bf.len() ==> (bf[k] is BlockStart || bf[k] is BlockDelta)
            &&& !started && bf.len() > 0 ==> bf[0] is BlockStart
        }),
    decreases blocks.len(),
{
    if blocks.len() > 0 {
        let rest = blocks.drop_last();
        lemma_block_frames(started, rest);
        let prior = block_frames(started, rest);
        let bf = block_frames(started, blocks);
        assert(no_block_text(blocks) == (no_block_text(rest) && blocks.last() is None)) by {
            if no_block_text(rest) && blocks.last() is None {
                assert forall|k: int| 0 <= k < blocks.len() implies blocks[k] is None by {
                    if k < blocks.len() - 1 {
                        assert(blocks[k] == rest[k]);
                    }
                }
            }
            if !no_block_text(rest) {
                let k = choose|k: int| 0 <= k < rest.len() && !(rest[k] is None);
                assert(blocks[k] == rest[k]);
            }
        }
        match blocks.last() {
            None => {},
            Some(t) => {
                let extra = (if started || !no_block_text(rest) {
                    Seq::empty()
                } else {
                    seq![FrameKind::BlockStart(t)]
                }) + seq![FrameKind::BlockDelta(t)];
                assert(bf == prior + extra);
                if !started && no_block_text(rest) {
                    assert(!opens_block(prior));
                    assert(prior.len() == 0) by {
                        if prior.len() > 0 {
                            assert(prior[0] is BlockStart);
                        }
                    }
                    assert(bf[0] is BlockStart);
                } else {
                    assert(!opens_block(extra));
                    assert(opens_block(bf) == opens_block(prior)) by {
                        if opens_block(bf) {
                            let i = choose|i: int| 0 <= i < bf.len() && bf[i] is BlockStart;
                            if i >= prior.len() {
                                assert(extra[i - prior.len()] is BlockStart);
                            }
                            assert(prior[i] is BlockStart);
                        }
                        if opens_block(prior) {
                            let i = choose|i: int| 0 <= i < prior.len() && prior[i] is BlockStart;
                            assert(bf[i] is BlockStart);
                        }
                    }
                    if !started {
                        assert(prior.len() > 0);
                        assert(bf[0] == prior[0]);
                    }
                }
            },
        }
    }
}

proof fn lemma_event_frames(started: bool, ev: EventFields)
    ensures
        ({
            let e = event_frames(started, ev);
            &&& opens_block(e) == (started_after(started, ev) && !started)
            &&& forall|k: int| 0 <= k < e.len() && e[k] is BlockStart ==> k == 0
            &&& forall|k: int| 0 <= k < e.len() && (#[trigger] e[k]) is BlockDelta ==> started || e[0] is BlockStart
            &&& forall|k: int| 0 <= k < e.len() && e[k] is BlockStop ==> started
        }),
{
    let e = event_frames(started, ev);
    if is_assistant(ev) {
        match ev.1 {
            Some(blocks) => {
                lemma_block_frames(started, blocks);
            },
            None => {},
        }
    }
}

/// Whatever the agent sends, a stream opens its text block at most once, and
/// before any text delta and before the block's end; the block is open exactly
/// when a start frame was sent.
pub proof fn stream_well_bracketed(evs: Seq<EventFields>)
    ensures
        well_bracketed(run_events(false, false, evs).2),
        run_events(false, false, evs).0 == opens_block(run_events(false, false, evs).2),
    decreases evs.len(),
{
    if evs.len() > 0 {
        stream_well_bracketed(evs.drop_last());
        let (s, h, ks) = run_events(false, false, evs.drop_last());
        let ev = evs.last();
        lemma_event_frames(s, ev);
        let e = event_frames(s, ev);
        let all = ks + e;
        assert(run_events(false, false, evs).2 == all);
        assert forall|i: int, j: int|
            0 <= i < all.len() && 0 <= j < all.len() && all[i] is BlockStart && all[j]
                is BlockStart implies i == j by {
            if i >= ks.len() && j < ks.len() {
                assert(ks[j] is BlockStart);
                assert(e[i - ks.len()] is BlockStart);
            }
            if j >= ks.len() && i < ks.len() {
                assert(ks[i] is BlockStart);
                assert(e[j - ks.len()] is BlockStart);
            }
            if i >= ks.len() && j >= ks.len() {
                assert(e[i - ks.len()] is BlockStart);
                assert(e[j - ks.len()] is BlockStart);
            }
        }
        assert forall|j: int| 0 <= j < all.len() && (all[j] is BlockDelta || all[j] is BlockStop)
            implies exists|i: int| 0 <= i < j && all[i] is BlockStart by {
            if j < ks.len() {
                assert(ks[j] == all[j]);
                let i = choose|i: int| 0 <= i < j && ks[i] is BlockStart;
                assert(all[i] is BlockStart);
            } else {
                assert(e[j - ks.len()] == all[j]);
                if s {
                    let i = choose|i: int| 0 <= i < ks.len() && ks[i] is BlockStart;
                    assert(all[i] is BlockStart);
                } else {
                    assert(e[0] is BlockStart);
                    assert(all[ks.len() as int] is BlockStart);
                    assert(j - ks.len() != 0);
                }
            }
        }
        assert(opens_block(all) == (opens_block(ks) || opens_block(e))) by {
            if opens_block(all) {
                let i = choose|i: int| 0 <= i < all.len() && all[i] is BlockStart;
                if i < ks.len() {
                    assert(ks[i] is BlockStart);
                } else {
                    assert(e[i - ks.len()] is BlockStart);
                }
            }
            if opens_block(ks) {
                let i = choose|i: int| 0 <= i < ks.len() && ks[i] is BlockStart;
                assert(all[i] is BlockStart);
            }
            if opens_block(e) {
                let i = choose|i: int| 0 <= i < e.len() && e[i] is BlockStart;
                assert(all[ks.len() + i] is BlockStart);
            }
        }
    }
}

/// The text that the deltas among `ks` carry, put together.
pub open spec fn delta_text(ks: Seq<FrameKind>) -> Seq<char>
    decreases ks.len(),
{
    if ks.len() == 0 {
        Seq::empty()
    } else {
        delta_text(ks.drop_last()) + match ks.last() {
            FrameKind::BlockDelta(t) => t,
            _ => Seq::empty(),
        }
    }
}

/// The whole answer's text for the events `evs` (what a `Reply` collects).
pub open spec fn answer_text(evs: Seq<EventFields>) -> Seq<char>
    decreases evs.len(),
{
    if evs.len() == 0 {
        Seq::empty()
    } else {
        answer_text(evs.drop_last()) + event_text(evs.last())
    }
}

proof fn lemma_delta_text_concat(a: Seq<FrameKind>, b: Seq<FrameKind>)
    ensures
        delta_text(a + b) == delta_text(a) + delta_text(b),
    decreases b.len(),
{
    if b.len() == 0 {
        assert(a + b =~= a);
    } else {
        lemma_delta_text_concat(a, b.drop_last());
        assert((a + b).drop_last() =~= a + b.drop_last());
        assert((a + b).last() == b.last());
    }
}

proof fn lemma_block_delta_text(started: bool, blocks: Seq<Option<Seq<char>>>)
    ensures
        delta_text(block_frames(started, blocks)) == texts_together(blocks),
    decreases blocks.len(),
{
    if blocks.len() > 0 {
        let rest = blocks.drop_last();
        lemma_block_delta_text(started, rest);
        match blocks.last() {
            None => {},
            Some(t) => {
                let opening = if started || !no_block_text(rest) {
                    Seq::empty()
                } else {
                    seq![FrameKind::BlockStart(t)]
                };
                let prior = block_frames(started, rest);
                lemma_delta_text_concat(prior, opening);
                lemma_delta_text_concat(prior + opening, seq![FrameKind::BlockDelta(t)]);
                assert(delta_text(opening) =~= Seq::<char>::empty()) by {
                    if !(started || !no_block_text(rest)) {
                        let o = seq![FrameKind::BlockStart(t)];
                        assert(o.drop_last() =~= Seq::<FrameKind>::empty());
                        assert(delta_text(o.drop_last()) == Seq::<char>::empty());
                        assert(o.last() == FrameKind::BlockStart(t));
                        assert(delta_text(o) =~= Seq::<char>::empty());
                    }
                }
                let single = seq![FrameKind::BlockDelta(t)];
                assert(single.drop_last() =~= Seq::<FrameKind>::empty());
                assert(delta_text(single.drop_last()) == Seq::<char>::empty());
                assert(delta_text(single) =~= t);
            },
        }
    }
}

proof fn lemma_closing_delta_text(started: bool, input: nat, output: nat)
    ensures
        delta_text(closing_frames(started, input, output)) == Seq::<char>::empty(),
{
    let c = closing_frames(started, input, output);
    assert forall|k: int| 0 <= k <= c.len() implies delta_text(#[trigger] c.take(k))
        == Seq::<char>::empty() by {
        lemma_closing_prefix(c, k);
    }
    assert(c.take(c.len() as int) =~= c);
}

proof fn lemma_closing_prefix(c: Seq<FrameKind>, k: int)
    requires
        0 <= k <= c.len(),
        forall|i: int| 0 <= i < c.len() ==> !(#[trigger] c[i] is BlockDelta),
    ensures
        delta_text(c.take(k)) == Seq::<char>::empty(),
    decreases k,
{
    if k > 0 {
        lemma_closing_prefix(c, k - 1);
        assert(c.take(k).drop_last() =~= c.take(k - 1));
        assert(c.take(k).last() == c[k - 1]);
    }
}

/// Whatever the agent sends, the text that a stream delivers in its deltas is the
/// text of the whole answer that the same events give.
pub proof fn streamed_text_is_answer(started: bool, handled: bool, evs: Seq<EventFields>)
    ensures
        delta_text(run_events(started, handled, evs).2) == answer_text(evs),
    decreases evs.len(),
{
    if evs.len() > 0 {
        streamed_text_is_answer(started, handled, evs.drop_last());
        let (s, h, ks) = run_events(started, handled, evs.drop_last());
        let ev = evs.last();
        lemma_delta_text_concat(ks, event_frames(s, ev));
        if is_assistant(ev) {
            match ev.1 {
                Some(blocks) => lemma_block_delta_text(s, blocks),
                None => {},
            }
        } else if is_result(ev) {
            lemma_closing_delta_text(s, count_or_zero(ev.2), count_or_zero(ev.3));
        }
    }
}

/// A result from the agent ends the message: the open text block, if any, is
/// closed, then `message_delta` with the agent's usage, `message_stop` and
/// `[DONE]` follow.
pub proof fn result_ends_message(started: bool, ev: EventFields)
    requires
        is_result(ev),
    ensures
        event_frames(started, ev) == closing_frames(started, count_or_zero(ev.2), count_or_zero(ev.3)),
        started_after(started, ev) == started,
{
    reveal_strlit("assistant");
    reveal_strlit("result");
    assert(!is_assistant(ev)) by {
        assert("assistant"@.len() != "result"@.len());
    }
}

/// When the agent stops without passing on a result, the stream is closed all the
/// same: the block, if one was opened, is closed, then `message_delta` with no
/// usage, `message_stop` and `[DONE]` follow.
pub proof fn unfinished_stream_is_closed(evs: Seq<EventFields>)
    requires
        forall|i: int| 0 <= i < evs.len() ==> !is_result(#[trigger] evs[i]),
    ensures
        !run_events(false, false, evs).1,
        ({
            let (s, h, ks) = run_events(false, false, evs);
            let tail = closing_frames(s, 0, 0);
            &&& tail.len() >= 3
            &&& tail.subrange(tail.len() - 3, tail.len() as int) == seq![
                FrameKind::MessageDelta(0, 0),
                FrameKind::MessageStop,
                FrameKind::Done,
            ]
            &&& (tail[0] is BlockStop) == opens_block(ks)
        }),
    decreases evs.len(),
{
    stream_well_bracketed(evs);
    if evs.len() > 0 {
        assert forall|i: int| 0 <= i < evs.drop_last().len() implies !is_result(
            #[trigger] evs.drop_last()[i],
        ) by {
            assert(evs.drop_last()[i] == evs[i]);
        }
        unfinished_stream_is_closed(evs.drop_last());
        assert(!is_result(evs[evs.len() - 1]));
    }
    let (s, h, ks) = run_events(false, false, evs);
    let tail = closing_frames(s, 0, 0);
    assert(tail.subrange(tail.len() - 3, tail.len() as int) =~= seq![
        FrameKind::MessageDelta(0, 0),
        FrameKind::MessageStop,
        FrameKind::Done,
    ]);
}

/// Only a blank line is passed over: a line that holds anything but whitespace
/// carries what the agent's JSON parse of it gives, whatever the texts of its
/// blocks hold (a block of spaces or line breaks included).
pub proof fn nonblank_line_is_its_event(line: Seq<char>)
    requires
        !all_white(line),
    ensures
        line_event(line) == agent_line_fields(line),
{
    crate::text::lemma_trim_empty(line);
}

/// A blank line carries no event.
pub proof fn blank_line_is_no_event(line: Seq<char>)
    requires
        all_white(line),
    ensures
        line_event(line) is None,
{
    crate::text::lemma_trim_empty(line);
}

/// The text of a delta frame, none for another frame.
pub open spec fn delta_of(k: FrameKind) -> Option<Seq<char>> {
    match k {
        FrameKind::BlockDelta(t) => Some(t),
        _ => None,
    }
}

proof fn lemma_block_deltas(started: bool, blocks: Seq<Option<Seq<char>>>)
    ensures
        block_frames(started, blocks).filter_map(|k: FrameKind| delta_of(k)) == blocks.filter_map(
            |b: Option<Seq<char>>| b,
        ),
    decreases blocks.len(),
{
    let f = |k: FrameKind| delta_of(k);
    let g = |b: Option<Seq<char>>| b;
    if blocks.len() == 0 {
        assert(block_frames(started, blocks).filter_map(f) =~= Seq::<Seq<char>>::empty());
    } else {
        let rest = blocks.drop_last();
        lemma_block_deltas(started, rest);
        let prior = block_frames(started, rest);
        match blocks.last() {
            None => {},
            Some(t) => {
                let opening = if started || !no_block_text(rest) {
                    Seq::empty()
                } else {
                    seq![FrameKind::BlockStart(t)]
                };
                lemma_filter_map_concat(prior, opening);
                lemma_filter_map_concat(prior + opening, seq![FrameKind::BlockDelta(t)]);
                let o1 = seq![FrameKind::BlockStart(t)];
                assert(o1.drop_last() =~= Seq::<FrameKind>::empty());
                assert(o1.last() == FrameKind::BlockStart(t));
                assert(f(o1.last()) is None);
                assert(o1.drop_last().filter_map(f) =~= Seq::<Seq<char>>::empty());
                assert(o1.filter_map(f) =~= Seq::<Seq<char>>::empty());
                assert(opening.filter_map(f) =~= Seq::<Seq<char>>::empty());
                let d = seq![FrameKind::BlockDelta(t)];
                assert(d.drop_last() =~= Seq::<FrameKind>::empty());
                assert(d.filter_map(f) =~= seq![t]);
                assert(block_frames(started, blocks) == prior + opening + d);
                assert(blocks.filter_map(g) =~= rest.filter_map(g) + seq![t]);
                assert(prior.filter_map(f) + Seq::<Seq<char>>::empty() =~= prior.filter_map(f));
            },
        }
    }
}

proof fn lemma_filter_map_concat(a: Seq<FrameKind>, b: Seq<FrameKind>)
    ensures
        (a + b).filter_map(|k: FrameKind| delta_of(k)) == a.filter_map(|k: FrameKind| delta_of(k))
            + b.filter_map(|k: FrameKind| delta_of(k)),
    decreases b.len(),
{
    let f = |k: FrameKind| delta_of(k);
    if b.len() == 0 {
        assert(a + b =~= a);
        assert(a.filter_map(f) + b.filter_map(f) =~= a.filter_map(f));
    } else {
        lemma_filter_map_concat(a, b.drop_last());
        assert((a + b).drop_last() =~= a + b.drop_last());
        assert((a + b).last() == b.last());
        match delta_of(b.last()) {
            Some(t) => {
                assert((a + b).filter_map(f) =~= a.filter_map(f) + b.filter_map(f));
            },
            None => {},
        }
    }
}

proof fn lemma_no_text_filtered(blocks: Seq<Option<Seq<char>>>)
    ensures
        no_block_text(blocks) == (blocks.filter_map(|b: Option<Seq<char>>| b).len() == 0),
    decreases blocks.len(),
{
    let g = |b: Option<Seq<char>>| b;
    if blocks.len() > 0 {
        let rest = blocks.drop_last();
        lemma_no_text_filtered(rest);
        assert(no_block_text(blocks) == (no_block_text(rest) && blocks.last() is None)) by {
            if no_block_text(rest) && blocks.last() is None {
                assert forall|k: int| 0 <= k < blocks.len() implies blocks[k] is None by {
                    if k < blocks.len() - 1 {
                        assert(blocks[k] == rest[k]);
                    }
                }
            }
            if !no_block_text(rest) {
                let k = choose|k: int| 0 <= k < rest.len() && !(rest[k] is None);
                assert(blocks[k] == rest[k]);
            }
        }
    }
}

proof fn lemma_block_opening(started: bool, blocks: Seq<Option<Seq<char>>>)
    requires
        !started,
        blocks.filter_map(|b: Option<Seq<char>>| b).len() > 0,
    ensures
        block_frames(started, blocks).len() > 0,
        block_frames(started, blocks)[0] == FrameKind::BlockStart(
            blocks.filter_map(|b: Option<Seq<char>>| b)[0],
        ),
    decreases blocks.len(),
{
    let g = |b: Option<Seq<char>>| b;
    let rest = blocks.drop_last();
    lemma_no_text_filtered(rest);
    lemma_block_frames(started, rest);
    let prior = block_frames(started, rest);
    match blocks.last() {
        None => {
            assert(blocks.filter_map(g) == rest.filter_map(g));
            lemma_block_opening(started, rest);
        },
        Some(t) => {
            assert(blocks.filter_map(g) == rest.filter_map(g) + seq![t]);
            if no_block_text(rest) {
                assert(prior.len() == 0) by {
                    if prior.len() > 0 {
                        assert(prior[0] is BlockStart);
                        assert(opens_block(prior));
                    }
                }
                assert(blocks.filter_map(g)[0] == t);
                assert(block_frames(started, blocks) == prior + seq![FrameKind::BlockStart(t)]
                    + seq![FrameKind::BlockDelta(t)]);
            } else {
                lemma_block_opening(started, rest);
                assert(blocks.filter_map(g)[0] == rest.filter_map(g)[0]);
                assert(block_frames(started, blocks) == prior + Seq::<FrameKind>::empty()
                    + seq![FrameKind::BlockDelta(t)]);
            }
        },
    }
}

/// Every text block of an assistant event reaches the client: the deltas that the
/// event gives carry exactly the texts of its blocks, one delta each, in order,
/// whatever they hold (whitespace included); blocks without a text give none. The
/// text block is opened with the first text of the stream, and only once: an event
/// after it was opened opens nothing.
pub proof fn every_text_is_streamed(started: bool, ev: EventFields, blocks: Seq<Option<Seq<char>>>)
    requires
        ev.0 == Some("assistant"@),
        ev.1 == Some(blocks),
    ensures
        event_frames(started, ev).filter_map(|k: FrameKind| delta_of(k)) == blocks.filter_map(
            |b: Option<Seq<char>>| b,
        ),
        !started && blocks.filter_map(|b: Option<Seq<char>>| b).len() > 0 ==> event_frames(
            started,
            ev,
        )[0] == FrameKind::BlockStart(blocks.filter_map(|b: Option<Seq<char>>| b)[0]),
        started ==> forall|k: int|
            0 <= k < event_frames(started, ev).len() ==> !(#[trigger] event_frames(
                started,
                ev,
            )[k] is BlockStart),
{
    lemma_block_deltas(started, blocks);
    lemma_block_frames(started, blocks);
    if !started && blocks.filter_map(|b: Option<Seq<char>>| b).len() > 0 {
        lemma_block_opening(started, blocks);
    }
    if started {
        let e = event_frames(started, ev);
        assert forall|k: int| 0 <= k < e.len() implies !(#[trigger] e[k] is BlockStart) by {
            if e[k] is BlockStart {
                assert(opens_block(e));
            }
        }
    }
}

proof fn lemma_texts_flatten(blocks: Seq<Option<Seq<char>>>)
    ensures
        texts_together(blocks) == blocks.filter_map(|b: Option<Seq<char>>| b).flatten(),
    decreases blocks.len(),
{
    let g = |b: Option<Seq<char>>| b;
    if blocks.len() == 0 {
        assert(blocks.filter_map(g) =~= Seq::<Seq<char>>::empty());
    } else {
        let rest = blocks.drop_last();
        lemma_texts_flatten(rest);
        match blocks.last() {
            None => {
                assert(texts_together(blocks) =~= texts_together(rest));
            },
            Some(t) => {
                assert(blocks.filter_map(g) =~= rest.filter_map(g).push(t));
                rest.filter_map(g).lemma_flatten_push(t);
            },
        }
    }
}

/// A whole answer keeps every text block of an assistant event: what the event
/// adds is the texts of its blocks, one after the other, whatever they hold.
pub proof fn every_text_is_answered(ev: EventFields, blocks: Seq<Option<Seq<char>>>)
    requires
        ev.0 == Some("assistant"@),
        ev.1 == Some(blocks),
    ensures
        event_text(ev) == blocks.filter_map(|b: Option<Seq<char>>| b).flatten(),
{
    lemma_texts_flatten(blocks);
}

/// The usage that a whole answer reports for the events `evs`: that of the last
/// result event (what `Reply` keeps), none before any.
pub open spec fn reply_usage(evs: Seq<EventFields>) -> (Option<u64>, Option<u64>)
    decreases evs.len(),
{
    if evs.len() == 0 {
        (None, None)
    } else if is_result(evs.last()) {
        (evs.last().2, evs.last().3)
    } else {
        reply_usage(evs.drop_last())
    }
}

/// The token counts of the last `message_delta` among `ks`.
pub open spec fn last_usage(ks: Seq<FrameKind>) -> Option<(nat, nat)>
    decreases ks.len(),
{
    if ks.len() == 0 {
        None
    } else {
        match ks.last() {
            FrameKind::MessageDelta(i, o) => Some((i, o)),
            _ => last_usage(ks.drop_last()),
        }
    }
}

proof fn lemma_last_usage_concat(a: Seq<FrameKind>, b: Seq<FrameKind>)
    ensures
        last_usage(a + b) == (if last_usage(b) is Some {
            last_usage(b)
        } else {
            last_usage(a)
        }),
    decreases b.len(),
{
    if b.len() == 0 {
        assert(a + b =~= a);
    } else {
        lemma_last_usage_concat(a, b.drop_last());
        assert((a + b).drop_last() =~= a + b.drop_last());
        assert((a + b).last() == b.last());
    }
}

proof fn lemma_block_frames_no_usage(started: bool, blocks: Seq<Option<Seq<char>>>)
    ensures
        last_usage(block_frames(started, blocks)) is None,
{
    lemma_block_frames(started, blocks);
    let bf = block_frames(started, blocks);
    assert forall|k: int| 0 <= k <= bf.len() implies last_usage(#[trigger] bf.take(k)) is None by {
        lemma_no_usage_prefix(bf, k);
    }
    assert(bf.take(bf.len() as int) =~= bf);
}

proof fn lemma_no_usage_prefix(ks: Seq<FrameKind>, k: int)
    requires
        0 <= k <= ks.len(),
        forall|i: int| 0 <= i < ks.len() ==> !(#[trigger] ks[i] is MessageDelta),
    ensures
        last_usage(ks.take(k)) is None,
    decreases k,
{
    if k > 0 {
        lemma_no_usage_prefix(ks, k - 1);
        assert(ks.take(k).drop_last() =~= ks.take(k - 1));
        assert(ks.take(k).last() == ks[k - 1]);
    }
}

proof fn lemma_closing_usage(started: bool, input: nat, output: nat)
    ensures
        last_usage(closing_frames(started, input, output)) == Some((input, output)),
{
    let c = closing_frames(started, input, output);
    let c1 = c.drop_last();
    let c2 = c1.drop_last();
    assert(c.last() == FrameKind::Done);
    assert(c1.last() == FrameKind::MessageStop);
    assert(c2.last() == FrameKind::MessageDelta(input, output));
    assert(last_usage(c2) == Some((input, output)));
    assert(last_usage(c1) == last_usage(c2));
    assert(last_usage(c) == last_usage(c1));
}

proof fn lemma_usage_run(evs: Seq<EventFields>)
    ensures
        ({
            let (s, h, ks) = run_events(false, false, evs);
            &&& h ==> last_usage(ks) == Some(
                (count_or_zero(reply_usage(evs).0), count_or_zero(reply_usage(evs).1)),
            )
            &&& !h ==> last_usage(ks) is None && reply_usage(evs) == (None::<u64>, None::<u64>)
        }),
    decreases evs.len(),
{
    reveal_strlit("assistant");
    reveal_strlit("result");
    assert("assistant"@.len() != "result"@.len());
    if evs.len() > 0 {
        lemma_usage_run(evs.drop_last());
        let (s, h, ks) = run_events(false, false, evs.drop_last());
        let ev = evs.last();
        let e = event_frames(s, ev);
        lemma_last_usage_concat(ks, e);
        if is_assistant(ev) {
            match ev.1 {
                Some(blocks) => lemma_block_frames_no_usage(s, blocks),
                None => {},
            }
        } else if is_result(ev) {
            lemma_closing_usage(s, count_or_zero(ev.2), count_or_zero(ev.3));
        }
    }
}

/// Streaming and the whole answer report the same usage: whatever the agent
/// sends, the last `message_delta` of a stream, its closing frames included,
/// carries the token counts that the whole answer reports (0 for a missing one).
pub proof fn streamed_usage_is_reply_usage(evs: Seq<EventFields>)
    ensures
        ({
            let (s, h, ks) = run_events(false, false, evs);
            let closing = if h {
                Seq::empty()
            } else {
                closing_frames(s, 0, 0)
            };
            last_usage(ks + closing) == Some(
                (count_or_zero(reply_usage(evs).0), count_or_zero(reply_usage(evs).1)),
            )
        }),
{
    lemma_usage_run(evs);
    let (s, h, ks) = run_events(false, false, evs);
    if h {
        assert(ks + Seq::<FrameKind>::empty() =~= ks);
    } else {
        lemma_closing_usage(s, 0, 0);
        lemma_last_usage_concat(ks, closing_frames(s, 0, 0));
    }
}

} // verus!
