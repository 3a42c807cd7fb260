use cursor_bridge::prompt::{build_prompt, extract_system_text, Message, MessagesRequest, TextValue};

fn msg(role: &str, content: TextValue) -> Message {
    Message { role: role.to_string(), content }
}

#[test]
fn system_text_forms() {
    assert_eq!(extract_system_text(&None), "");
    assert_eq!(extract_system_text(&Some(TextValue::Str("be brief".into()))), "be brief");
    assert_eq!(extract_system_text(&Some(TextValue::Other)), "");
    let blocks = TextValue::Array(vec![Some("a".into()), None, Some("b".into()), Some("".into())]);
    assert_eq!(extract_system_text(&Some(blocks)), "a\nb\n");
    let none = TextValue::Array(vec![None, None]);
    assert_eq!(extract_system_text(&Some(none)), "");
}

#[test]
fn prompt_without_system() {
    let ms = vec![msg("user", TextValue::Str("hi".into()))];
    assert_eq!(build_prompt(&ms, &None), "[User]\nhi\n[/User]\n\n[Assistant]\n");
}

#[test]
fn prompt_with_system_and_roles() {
    let ms = vec![
        msg("user", TextValue::Str("hi".into())),
        msg("assistant", TextValue::Array(vec![Some("hello".into()), None, Some("there".into())])),
        msg("tool", TextValue::Other),
    ];
    let p = build_prompt(&ms, &Some(TextValue::Str("sys".into())));
    assert_eq!(
        p,
        "[SYSTEM]\nsys\n[/SYSTEM]\n\n[User]\nhi\n[/User]\n\n[Assistant]\nhello\nthere\n\n[/Assistant]\n\n[User]\n\n[/User]\n\n[Assistant]\n"
    );
}

#[test]
fn prompt_empty_system_has_no_section() {
    let p = build_prompt(&[], &Some(TextValue::Str(String::new())));
    assert_eq!(p, "[Assistant]\n");
}

#[test]
fn prompt_of_concatenation_scenario() {
    let a = vec![msg("user", TextValue::Str("one".into()))];
    let b = vec![msg("assistant", TextValue::Str("two".into()))];
    let ab: Vec<Message> = vec![
        msg("user", TextValue::Str("one".into())),
        msg("assistant", TextValue::Str("two".into())),
    ];
    let sys = Some(TextValue::Str("s".into()));
    let pa = build_prompt(&a, &sys);
    let pb = build_prompt(&b, &None);
    let pab = build_prompt(&ab, &sys);
    let a_sections = &pa[..pa.len() - "[Assistant]\n".len()];
    let b_sections = &pb[..pb.len() - "[Assistant]\n".len()];
    assert_eq!(pab, format!("{a_sections}{b_sections}[Assistant]\n"));
}

#[test]
fn request_defaults() {
    let r = MessagesRequest { model: None, messages: None, system: None, max_tokens: None, stream: None };
    assert!(r.stream_mode());
    assert_eq!(r.model_name(), "cursor-auto");
    assert_eq!(r.prompt(), "[Assistant]\n");
    let r = MessagesRequest {
        model: Some("sonnet-x".into()),
        messages: Some(vec![msg("user", TextValue::Str("q".into()))]),
        system: None,
        max_tokens: Some(10),
        stream: Some(false),
    };
    assert!(!r.stream_mode());
    assert_eq!(r.model_name(), "sonnet-x");
    assert_eq!(r.prompt(), "[User]\nq\n[/User]\n\n[Assistant]\n");
}
