use shellm::llm::{build_reply, extract_json, ReplyPayload};

#[test]
fn test_extract_json_with_json_fence() {
    let input = r#"```json
{"command": "ls -la", "answer": "list files"}
```"#;
    let result = extract_json(input);
    assert_eq!(result, r#"{"command": "ls -la", "answer": "list files"}"#);
}

#[test]
fn test_extract_json_with_generic_fence() {
    let input = r#"```
{"command": "pwd", "answer": "print working directory"}
```"#;
    let result = extract_json(input);
    assert_eq!(result, r#"{"command": "pwd", "answer": "print working directory"}"#);
}

#[test]
fn test_extract_json_plain() {
    let input = r#"{"command": "echo hello", "answer": "prints hello"}"#;
    let result = extract_json(input);
    assert_eq!(result, r#"{"command": "echo hello", "answer": "prints hello"}"#);
}

#[test]
fn test_extract_json_with_whitespace() {
    let input = r#"
```json
{
    "command": "du -sh ~",
    "answer": "查看主目录占用空间"
}
```
"#;
    let result = extract_json(input);
    assert!(result.contains(r#""command": "du -sh ~""#));
}

#[test]
fn test_extract_json_with_text_before_fence() {
    let input = r#"Here is your command:
```json
{"command": "cat /etc/passwd", "answer": "view passwd file"}
```"#;
    let result = extract_json(input);
    assert_eq!(result, r#"{"command": "cat /etc/passwd", "answer": "view passwd file"}"#);
}

#[test]
fn test_extract_json_unclosed_fence() {
    let input = r#"```json
{"command": "ls"}"#;
    let result = extract_json(input);
    assert_eq!(result, input.trim());
}

fn payload(
    command: Option<&str>,
    answer: Option<&str>,
    note: Option<&str>,
    explanation: Option<&str>,
    message: Option<&str>,
) -> ReplyPayload {
    ReplyPayload {
        command: command.map(|s| s.to_string()),
        answer: answer.map(|s| s.to_string()),
        note: note.map(|s| s.to_string()),
        explanation: explanation.map(|s| s.to_string()),
        message: message.map(|s| s.to_string()),
    }
}

#[test]
fn test_build_reply_parsed() {
    let r = build_reply(
        "raw".to_string(),
        "because".to_string(),
        Some(payload(Some("ls -la"), Some("list files"), None, None, None)),
    );
    assert_eq!(r.text, "list files");
    assert_eq!(r.suggested_command.as_deref(), Some("ls -la"));
    assert_eq!(r.reasoning.as_deref(), Some("because"));
}

#[test]
fn test_build_reply_fallbacks() {
    // No payload: raw text verbatim, no command.
    let r = build_reply("not json".to_string(), String::new(), None);
    assert_eq!(r.text, "not json");
    assert!(r.suggested_command.is_none());
    assert!(r.reasoning.is_none());

    // Empty command counts as none; note stands in for a missing answer.
    let r = build_reply(
        "raw".to_string(),
        String::new(),
        Some(payload(Some(""), None, Some("a note"), None, None)),
    );
    assert_eq!(r.text, "a note");
    assert!(r.suggested_command.is_none());

    // Empty display text falls back to the raw reply.
    let r = build_reply(
        "raw".to_string(),
        String::new(),
        Some(payload(None, Some(""), None, None, None)),
    );
    assert_eq!(r.text, "raw");
}
