//! The session around the proxy: the command line given on to the assistant's
//! command-line client, the
//! environment that points it at the proxy, and where the Cursor token comes from.
use vstd::prelude::*;

use crate::number::{decimal_text, push_decimal};
use crate::text::{same_text, trim, trim_text};

verus! {

/// The texts of `args`.
pub open spec fn texts(args: Seq<String>) -> Seq<Seq<char>> {
    args.map_values(|s: String| s@)
}

fn holds_text(args: &[String], a: &str, b: &str) -> (r: bool)
    ensures
        r == (texts(args@).contains(a@) || texts(args@).contains(b@)),
{
    let mut i: usize = 0;
    while i < args.len()
        invariant
            i <= args@.len(),
            forall|k: int| 0 <= k < i ==> args@[k]@ != a@ && args@[k]@ != b@,
        decreases args@.len() - i,
    {
        if same_text(args[i].as_str(), a) || same_text(args[i].as_str(), b) {
            assert(texts(args@)[i as int] == args@[i as int]@);
            return true;
        }
        i = i + 1;
    }
    assert(!texts(args@).contains(a@) && !texts(args@).contains(b@)) by {
        assert forall|k: int| 0 <= k < texts(args@).len() implies texts(args@)[k] != a@
            && texts(args@)[k] != b@ by {
            assert(texts(args@)[k] == args@[k]@);
        }
    }
    false
}

/// Whether the command line asks for help.
pub fn wants_help(args: &[String]) -> (r: bool)
    ensures
        r == (texts(args@).contains("--help"@) || texts(args@).contains("-h"@)),
{
    holds_text(args, "--help", "-h")
}

/// Whether the command line asks for print (pipe) mode.
pub fn is_pipe(args: &[String]) -> (r: bool)
    ensures
        r == (texts(args@).contains("-p"@) || texts(args@).contains("--print"@)),
{
    holds_text(args, "-p", "--print")
}

/// The flag that lets the client act without asking.
pub const SKIP_PERMISSIONS: &'static str = "--dangerously-skip-permissions";

/// The arguments given on to the client: the user's, and the flag that skips the
/// permission prompts when there are any (or print mode) and it is not among them.
pub open spec fn claude_arg_texts(args: Seq<Seq<char>>) -> Seq<Seq<char>> {
    let pipe = args.contains("-p"@) || args.contains("--print"@);
    if (pipe || args.len() > 0) && !args.contains(SKIP_PERMISSIONS@) {
        args.push(SKIP_PERMISSIONS@)
    } else {
        args
    }
}

pub fn claude_args(args: &[String]) -> (r: Vec<String>)
    ensures
        texts(r@) == claude_arg_texts(texts(args@)),
{
    let pipe = is_pipe(args);
    let mut r: Vec<String> = Vec::new();
    let mut i: usize = 0;
    while i < args.len()
        invariant
            i <= args@.len(),
            r@.len() == i,
            forall|k: int| 0 <= k < i ==> (#[trigger] r@[k])@ == args@[k]@,
        decreases args@.len() - i,
    {
        r.push(args[i].clone());
        i = i + 1;
    }
    assert(texts(r@) =~= texts(args@));
    if (pipe || args.len() > 0) && !holds_text(args, SKIP_PERMISSIONS, SKIP_PERMISSIONS) {
        r.push(SKIP_PERMISSIONS.to_owned());
        assert(texts(r@) =~= texts(args@).push(SKIP_PERMISSIONS@));
    }
    r
}

/// The address of the proxy listening on `port`.
pub open spec fn base_url_text(port: nat) -> Seq<char> {
    "http://127.0.0.1:"@ + decimal_text(port)
}

/// The environment that points the client at the proxy on `port`.
pub open spec fn claude_env_texts(port: nat) -> Seq<(Seq<char>, Seq<char>)> {
    seq![
        ("ANTHROPIC_BASE_URL"@, base_url_text(port)),
        ("ANTHROPIC_AUTH_TOKEN"@, "sk-any"@),
        ("ANTHROPIC_API_KEY"@, ""@),
        ("ANTHROPIC_MODEL"@, "cursor-auto"@),
        ("CLAUDE_CODE_DISABLE_NONESSENTIAL_TRAFFIC"@, "1"@),
    ]
}

pub fn claude_env(port: u16) -> (r: Vec<(String, String)>)
    ensures
        r@.map_values(|p: (String, String)| (p.0@, p.1@)) == claude_env_texts(port as nat),
{
    let mut url = String::new();
    url.append("http://127.0.0.1:");
    push_decimal(&mut url, port as u64);
    let mut r: Vec<(String, String)> = Vec::new();
    r.push(("ANTHROPIC_BASE_URL".to_owned(), url));
    r.push(("ANTHROPIC_AUTH_TOKEN".to_owned(), "sk-any".to_owned()));
    r.push(("ANTHROPIC_API_KEY".to_owned(), "".to_owned()));
    r.push(("ANTHROPIC_MODEL".to_owned(), "cursor-auto".to_owned()));
    r.push(("CLAUDE_CODE_DISABLE_NONESSENTIAL_TRAFFIC".to_owned(), "1".to_owned()));
    assert(r@.map_values(|p: (String, String)| (p.0@, p.1@)) =~= claude_env_texts(port as nat));
    r
}

/// The Cursor token from the environment: `CURSOR_TOKEN` when set and not empty,
/// else `CURSOR_API_KEY` when set and not empty.
pub open spec fn env_token(cursor_token: Option<String>, api_key: Option<String>) -> Option<
    Seq<char>,
> {
    match (cursor_token, api_key) {
        (Some(t), _) if t@.len() > 0 => Some(t@),
        (_, Some(k)) if k@.len() > 0 => Some(k@),
        _ => None,
    }
}

pub fn token_from_env(cursor_token: Option<String>, api_key: Option<String>) -> (r: Option<String>)
    ensures
        r matches Some(t) ==> env_token(cursor_token, api_key) == Some(t@),
        r is None ==> env_token(cursor_token, api_key) is None,
{
    if let Some(t) = &cursor_token {
        if t.as_str().unicode_len() > 0 {
            return Some(t.clone());
        }
    }
    if let Some(k) = &api_key {
        if k.as_str().unicode_len() > 0 {
            return Some(k.clone());
        }
    }
    None
}

/// The token is looked for in order: a non-empty `CURSOR_TOKEN` wins; failing
/// that (unset or empty), a non-empty `CURSOR_API_KEY` is taken, whether or not
/// `CURSOR_TOKEN` is set; failing both, there is none.
pub proof fn token_lookup_order(cursor_token: Option<String>, api_key: Option<String>)
    ensures
        ({
            let token_set = cursor_token is Some && cursor_token->Some_0@.len() > 0;
            let key_set = api_key is Some && api_key->Some_0@.len() > 0;
            &&& token_set ==> env_token(cursor_token, api_key) == Some(cursor_token->Some_0@)
            &&& !token_set && key_set ==> env_token(cursor_token, api_key) == Some(api_key->Some_0@)
            &&& !token_set && !key_set ==> env_token(cursor_token, api_key) is None
        }),
{
}

/// The token that the keychain lookup printed: its output trimmed when the lookup
/// succeeded, else nothing.
pub fn token_from_keychain(succeeded: bool, output: &str) -> (r: String)
    ensures
        r@ == (if succeeded {
            trim_text(output@)
        } else {
            Seq::empty()
        }),
{
    if succeeded {
        trim(output)
    } else {
        String::new()
    }
}

/// What an attempt to accept a connection on the proxy's non-blocking listener gave.
#[derive(PartialEq, Eq, Structural, Debug, Clone, Copy)]
pub enum AcceptOutcome {
    /// A connection arrived.
    Connection,
    /// None is waiting yet.
    WouldBlock,
    /// The listener failed.
    Failed,
}

/// What the proxy's listening loop does next.
#[derive(PartialEq, Eq, Structural, Debug, Clone, Copy)]
pub enum ListenerAction {
    /// Serve the connection on a thread of its own, then accept again.
    Serve,
    /// Sleep this many milliseconds, then accept again.
    Sleep(u64),
    /// Stop listening.
    Stop,
}

/// How long the listener waits when no connection is waiting.
pub const IDLE_SLEEP_MS: u64 = 50;

/// The listening loop's next step after an accept: serve a connection, sleep when
/// none waits, stop when the listener fails.
pub fn accept_action(outcome: AcceptOutcome) -> (r: ListenerAction)
    ensures
        r == (match outcome {
            AcceptOutcome::Connection => ListenerAction::Serve,
            AcceptOutcome::WouldBlock => ListenerAction::Sleep(IDLE_SLEEP_MS),
            AcceptOutcome::Failed => ListenerAction::Stop,
        }),
{
    match outcome {
        AcceptOutcome::Connection => ListenerAction::Serve,
        AcceptOutcome::WouldBlock => ListenerAction::Sleep(IDLE_SLEEP_MS),
        AcceptOutcome::Failed => ListenerAction::Stop,
    }
}

/// The local proxy that the client talks to.
pub struct Proxy {
    port: u16,
}

impl Proxy {
    /// The proxy listening on `port`.
    pub fn new(port: u16) -> (r: Proxy)
        ensures
            r.port_number() == port,
    {
        Proxy { port }
    }

    /// The port that the proxy listens on.
    pub closed spec fn port_number(&self) -> u16 {
        self.port
    }

    pub fn port(&self) -> (r: u16)
        ensures
            r == self.port_number(),
    {
        self.port
    }
}

/// The user's arguments are given on unchanged and first; whenever there is any,
/// the flag that skips the permission prompts is among the arguments given on,
/// and it is never added twice.
pub proof fn user_args_kept(args: Seq<Seq<char>>)
    ensures
        claude_arg_texts(args).len() <= args.len() + 1,
        claude_arg_texts(args).take(args.len() as int) == args,
        args.len() > 0 ==> claude_arg_texts(args).contains(SKIP_PERMISSIONS@),
        args.contains(SKIP_PERMISSIONS@) ==> claude_arg_texts(args) == args,
{
    let r = claude_arg_texts(args);
    assert(r.take(args.len() as int) =~= args);
    if args.len() > 0 && !args.contains(SKIP_PERMISSIONS@) {
        assert(r[args.len() as int] == SKIP_PERMISSIONS@);
    }
}

} // verus!
