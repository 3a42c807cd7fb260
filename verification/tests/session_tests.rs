use cursor_bridge::number::decimal;
use cursor_bridge::session::{
    claude_args, claude_env, is_pipe, token_from_env, token_from_keychain, wants_help, Proxy,
    SKIP_PERMISSIONS,
};
use cursor_bridge::text::{is_blank, same_text, trim};

fn strings(v: &[&str]) -> Vec<String> {
    v.iter().map(|s| s.to_string()).collect()
}

#[test]
fn help_and_pipe_flags() {
    assert!(wants_help(&strings(&["-h"])));
    assert!(wants_help(&strings(&["x", "--help"])));
    assert!(!wants_help(&strings(&["help"])));
    assert!(is_pipe(&strings(&["-p", "list files"])));
    assert!(is_pipe(&strings(&["--print"])));
    assert!(!is_pipe(&strings(&["--pipe"])));
}

#[test]
fn claude_args_add_permission_flag() {
    assert_eq!(claude_args(&[]), Vec::<String>::new());
    assert_eq!(claude_args(&strings(&["refactor this file"])), strings(&["refactor this file", SKIP_PERMISSIONS]));
    assert_eq!(claude_args(&strings(&["-p", "x"])), strings(&["-p", "x", SKIP_PERMISSIONS]));
    assert_eq!(
        claude_args(&strings(&[SKIP_PERMISSIONS, "x"])),
        strings(&[SKIP_PERMISSIONS, "x"])
    );
}

#[test]
fn claude_environment() {
    let env = claude_env(54321);
    let pairs: Vec<(&str, &str)> = env.iter().map(|(k, v)| (k.as_str(), v.as_str())).collect();
    assert_eq!(
        pairs,
        vec![
            ("ANTHROPIC_BASE_URL", "http://127.0.0.1:54321"),
            ("ANTHROPIC_AUTH_TOKEN", "sk-any"),
            ("ANTHROPIC_API_KEY", ""),
            ("ANTHROPIC_MODEL", "cursor-auto"),
            ("CLAUDE_CODE_DISABLE_NONESSENTIAL_TRAFFIC", "1"),
        ]
    );
}

#[test]
fn token_sources() {
    assert_eq!(token_from_env(Some("abc".into()), Some("def".into())), Some("abc".to_string()));
    assert_eq!(token_from_env(Some("".into()), Some("def".into())), Some("def".to_string()));
    assert_eq!(token_from_env(None, Some("".into())), None);
    assert_eq!(token_from_env(None, None), None);
    assert_eq!(token_from_keychain(true, "  secret-token\n"), "secret-token");
    assert_eq!(token_from_keychain(false, "secret-token"), "");
}

#[test]
fn proxy_port() {
    assert_eq!(Proxy::new(8080).port(), 8080);
}

#[test]
fn text_helpers() {
    assert_eq!(decimal(0), "0");
    assert_eq!(decimal(1234567890), "1234567890");
    assert_eq!(decimal(u64::MAX), u64::MAX.to_string());
    assert_eq!(trim("\u{2003} a b \u{85}"), "a b");
    assert!(is_blank(" \t\r\n\u{2028}"));
    assert!(!is_blank(" x "));
    assert!(same_text("ß", "ß"));
    assert!(!same_text("a", "A"));
}

use cursor_bridge::session::{accept_action, AcceptOutcome, ListenerAction, IDLE_SLEEP_MS};

#[test]
fn listener_steps() {
    assert_eq!(accept_action(AcceptOutcome::Connection), ListenerAction::Serve);
    assert_eq!(accept_action(AcceptOutcome::WouldBlock), ListenerAction::Sleep(50));
    assert_eq!(IDLE_SLEEP_MS, 50);
    assert_eq!(accept_action(AcceptOutcome::Failed), ListenerAction::Stop);
}
