//! A messages request as the proxy reads it, and the plain-text prompt that it
//! hands to the agent.
use vstd::prelude::*;

use crate::text::same_text;

verus! {

/// A JSON value as the prompt reads it: a string, an array (each element kept as
/// the string under its `"text"` key, when it is an object with such a member),
/// or anything else.
pub enum TextValue {
    Str(String),
    Array(Vec<Option<String>>),
    Other,
}

/// One turn of the conversation.
pub struct Message {
    pub role: String,
    pub content: TextValue,
}

/// The body of a `POST /v1/messages` request.
pub struct MessagesRequest {
    pub model: Option<String>,
    pub messages: Option<Vec<Message>>,
    pub system: Option<TextValue>,
    pub max_tokens: Option<u32>,
    pub stream: Option<bool>,
}

/// Whether no element of `blocks` holds a text.
pub open spec fn no_text(blocks: Seq<Option<String>>) -> bool {
    forall|i: int| 0 <= i < blocks.len() ==> blocks[i] is None
}

/// The texts of `blocks` joined with line breaks (elements without a text left out).
pub open spec fn joined_texts(blocks: Seq<Option<String>>) -> Seq<char>
    decreases blocks.len(),
{
    if blocks.len() == 0 {
        Seq::empty()
    } else {
        let rest = joined_texts(blocks.drop_last());
        match blocks.last() {
            None => rest,
            Some(t) => if no_text(blocks.drop_last()) {
                t@
            } else {
                rest + seq!['\n'] + t@
            },
        }
    }
}

/// Whether the first `i + 1` elements hold no text, from the first `i`.
pub(crate) proof fn lemma_no_text_step(blocks: Seq<Option<String>>, i: int)
    requires
        0 <= i < blocks.len(),
    ensures
        no_text(blocks.take(i + 1)) == (no_text(blocks.take(i)) && blocks[i] is None),
{
    let before = blocks.take(i);
    let next = blocks.take(i + 1);
    if no_text(before) && blocks[i] is None {
        assert forall|k: int| 0 <= k < next.len() implies next[k] is None by {
            if k < i {
                assert(next[k] == before[k]);
            }
        }
    }
    if !no_text(before) {
        let k = choose|k: int| 0 <= k < before.len() && !(before[k] is None);
        assert(next[k] == before[k]);
    }
    if !(blocks[i] is None) {
        assert(!(next[i] is None));
    }
}

proof fn lemma_no_text_joined(blocks: Seq<Option<String>>)
    ensures
        no_text(blocks) ==> joined_texts(blocks) == Seq::<char>::empty(),
    decreases blocks.len(),
{
    if blocks.len() > 0 {
        lemma_no_text_joined(blocks.drop_last());
        if no_text(blocks) {
            assert(no_text(blocks.drop_last())) by {
                assert forall|k: int| 0 <= k < blocks.len() - 1 implies blocks.drop_last()[k] is None by {
                    assert(blocks.drop_last()[k] == blocks[k]);
                }
            }
            assert(blocks.last() is None);
        }
    }
}

/// The texts of `blocks`, each followed by a line break.
pub open spec fn text_lines(blocks: Seq<Option<String>>) -> Seq<char>
    decreases blocks.len(),
{
    if blocks.len() == 0 {
        Seq::empty()
    } else {
        text_lines(blocks.drop_last()) + match blocks.last() {
            None => Seq::empty(),
            Some(t) => t@ + seq!['\n'],
        }
    }
}

/// The system text of a request: a string as it is, the texts of an array joined
/// with line breaks, and nothing for anything else.
pub open spec fn system_text(system: Option<TextValue>) -> Seq<char> {
    match system {
        Some(TextValue::Str(s)) => s@,
        Some(TextValue::Array(blocks)) => joined_texts(blocks@),
        _ => Seq::empty(),
    }
}

/// The text of a message: a string as it is, each text of an array on a line of
/// its own, and nothing for anything else.
pub open spec fn content_text(content: TextValue) -> Seq<char> {
    match content {
        TextValue::Str(s) => s@,
        TextValue::Array(blocks) => text_lines(blocks@),
        TextValue::Other => Seq::empty(),
    }
}

/// The speaker's label: `Assistant` for the role `assistant`, `User` for any other.
pub open spec fn role_label(role: Seq<char>) -> Seq<char> {
    if role == "assistant"@ {
        "Assistant"@
    } else {
        "User"@
    }
}

/// One message of the prompt, between its opening and closing tags.
pub open spec fn message_section(m: Message) -> Seq<char> {
    "["@ + role_label(m.role@) + "]\n"@ + content_text(m.content) + "\n[/"@ + role_label(m.role@)
        + "]\n\n"@
}

/// All messages of the prompt, in order.
pub open spec fn message_sections(ms: Seq<Message>) -> Seq<char>
    decreases ms.len(),
{
    if ms.len() == 0 {
        Seq::empty()
    } else {
        message_sections(ms.drop_last()) + message_section(ms.last())
    }
}

/// The system section of the prompt; nothing when the system text is empty.
pub open spec fn system_section(system: Option<TextValue>) -> Seq<char> {
    let s = system_text(system);
    if s.len() > 0 {
        "[SYSTEM]\n"@ + s + "\n[/SYSTEM]\n\n"@
    } else {
        Seq::empty()
    }
}

/// The prompt for a conversation: the system section, every message, and the
/// opening tag of the assistant's answer.
pub open spec fn prompt_text(ms: Seq<Message>, system: Option<TextValue>) -> Seq<char> {
    system_section(system) + message_sections(ms) + "[Assistant]\n"@
}

/// The system text of a request (see `system_text`).
pub fn extract_system_text(system: &Option<TextValue>) -> (r: String)
    ensures
        r@ == system_text(*system),
{
    match system {
        Some(TextValue::Str(s)) => s.clone(),
        Some(TextValue::Array(blocks)) => {
            let mut r = String::new();
            let mut any = false;
            let mut i: usize = 0;
            while i < blocks.len()
                invariant
                    i <= blocks@.len(),
                    any == !no_text(blocks@.take(i as int)),
                    r@ == joined_texts(blocks@.take(i as int)),
                decreases blocks@.len() - i,
            {
                let ghost before = blocks@.take(i as int);
                assert(blocks@.take(i + 1).drop_last() =~= before);
                let ghost next = blocks@.take(i + 1);
                assert(next.last() == blocks@[i as int]);
                proof {
                    lemma_no_text_step(blocks@, i as int);
                }
                match &blocks[i] {
                    Some(t) => {
                        proof {
                            reveal_strlit("\n");
                            lemma_no_text_joined(before);
                        }
                        if any {
                            r.append("\n");
                        }
                        r.append(t.as_str());
                        any = true;
                        assert(next.last() == Some(*t));
                        assert(r@ =~= joined_texts(next));
                    },
                    None => {},
                }
                i = i + 1;
            }
            assert(blocks@.take(i as int) =~= blocks@);
            r
        },
        _ => String::new(),
    }
}

fn push_label(out: &mut String, role: &str)
    ensures
        final(out)@ == old(out)@ + role_label(role@),
{
    if same_text(role, "assistant") {
        out.append("Assistant");
    } else {
        out.append("User");
    }
}

fn push_content(out: &mut String, content: &TextValue)
    ensures
        final(out)@ == old(out)@ + content_text(*content),
{
    match content {
        TextValue::Str(s) => out.append(s.as_str()),
        TextValue::Array(blocks) => {
            let ghost start = out@;
            let mut i: usize = 0;
            while i < blocks.len()
                invariant
                    i <= blocks@.len(),
                    out@ == start + text_lines(blocks@.take(i as int)),
                decreases blocks@.len() - i,
            {
                assert(blocks@.take(i + 1).drop_last() =~= blocks@.take(i as int));
                match &blocks[i] {
                    Some(t) => {
                        out.append(t.as_str());
                        out.append("\n");
                        proof {
                            reveal_strlit("\n");
                        }
                    },
                    None => {},
                }
                assert(out@ =~= start + text_lines(blocks@.take(i + 1)));
                i = i + 1;
            }
            assert(blocks@.take(i as int) =~= blocks@);
        },
        TextValue::Other => {},
    }
}

/// The prompt for the conversation `messages` under the system text `system`.
pub fn build_prompt(messages: &[Message], system: &Option<TextValue>) -> (r: String)
    ensures
        r@ == prompt_text(messages@, *system),
{
    let mut prompt = String::new();
    let sys_text = extract_system_text(system);
    if sys_text.as_str().unicode_len() > 0 {
        prompt.append("[SYSTEM]\n");
        prompt.append(sys_text.as_str());
        prompt.append("\n[/SYSTEM]\n\n");
    }
    let ghost head = prompt@;
    assert(head =~= system_section(*system));
    let mut i: usize = 0;
    while i < messages.len()
        invariant
            i <= messages@.len(),
            prompt@ == head + message_sections(messages@.take(i as int)),
        decreases messages@.len() - i,
    {
        let msg = &messages[i];
        assert(messages@.take(i + 1).drop_last() =~= messages@.take(i as int));
        prompt.append("[");
        push_label(&mut prompt, msg.role.as_str());
        prompt.append("]\n");
        push_content(&mut prompt, &msg.content);
        prompt.append("\n[/");
        push_label(&mut prompt, msg.role.as_str());
        prompt.append("]\n\n");
        assert(prompt@ =~= head + message_sections(messages@.take(i + 1)));
        i = i + 1;
    }
    assert(messages@.take(i as int) =~= messages@);
    prompt.append("[Assistant]\n");
    assert(prompt@ =~= prompt_text(messages@, *system));
    prompt
}

impl MessagesRequest {
    /// Whether the answer is to be streamed: unless the request says otherwise.
    pub fn stream_mode(&self) -> (r: bool)
        ensures
            r == (match self.stream {
                Some(b) => b,
                None => true,
            }),
    {
        match self.stream {
            Some(b) => b,
            None => true,
        }
    }

    /// The model named in the answer: the one requested, else `cursor-auto`.
    pub fn model_name(&self) -> (r: String)
        ensures
            r@ == (match self.model {
                Some(m) => m@,
                None => "cursor-auto"@,
            }),
    {
        match &self.model {
            Some(m) => m.clone(),
            None => "cursor-auto".to_owned(),
        }
    }

    /// The prompt for this request (no messages when it names none).
    pub fn prompt(&self) -> (r: String)
        ensures
            r@ == prompt_text(
                match self.messages {
                    Some(ms) => ms@,
                    None => Seq::empty(),
                },
                self.system,
            ),
    {
        match &self.messages {
            Some(ms) => build_prompt(ms.as_slice(), &self.system),
            None => {
                let none: Vec<Message> = Vec::new();
                build_prompt(none.as_slice(), &self.system)
            },
        }
    }
}

proof fn lemma_sections_concat(a: Seq<Message>, b: Seq<Message>)
    ensures
        message_sections(a + b) == message_sections(a) + message_sections(b),
    decreases b.len(),
{
    if b.len() == 0 {
        assert(a + b =~= a);
    } else {
        lemma_sections_concat(a, b.drop_last());
        assert((a + b).drop_last() =~= a + b.drop_last());
        assert((a + b).last() == b.last());
    }
}

/// The prompt is built message by message: the prompt for the messages of `a`
/// followed by those of `b` holds the sections of `a`, then those of `b`, after
/// the same system section and before the same opening of the answer.
pub proof fn prompt_of_concatenation(a: Seq<Message>, b: Seq<Message>, system: Option<TextValue>)
    ensures
        prompt_text(a + b, system) == system_section(system) + message_sections(a)
            + message_sections(b) + "[Assistant]\n"@,
{
    lemma_sections_concat(a, b);
    assert(prompt_text(a + b, system) =~= system_section(system) + message_sections(a)
        + message_sections(b) + "[Assistant]\n"@);
}

/// Every message has its section in the prompt, whatever its content (a string,
/// text blocks, blocks without text, or anything else): one more message adds,
/// just before the opening of the answer, its role's tag, its text, and the
/// closing tag (`Assistant` for the role `assistant`, `User` for any other).
pub proof fn every_message_has_a_section(ms: Seq<Message>, m: Message, system: Option<TextValue>)
    ensures
        ({
            let label = if m.role@ == "assistant"@ {
                "Assistant"@
            } else {
                "User"@
            };
            prompt_text(ms.push(m), system) == system_section(system) + message_sections(ms) + (
            "["@ + label + "]\n"@ + content_text(m.content) + "\n[/"@ + label + "]\n\n"@)
                + "[Assistant]\n"@
        }),
{
    assert(ms.push(m).drop_last() =~= ms);
    assert(ms.push(m).last() == m);
    let label = role_label(m.role@);
    assert(prompt_text(ms.push(m), system) =~= system_section(system) + message_sections(ms) + (
    "["@ + label + "]\n"@ + content_text(m.content) + "\n[/"@ + label + "]\n\n"@)
        + "[Assistant]\n"@);
}

} // verus!
