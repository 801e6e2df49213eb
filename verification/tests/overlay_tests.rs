use shellm::i18n::Language;
use shellm::llm::{ChatMessage, ChatReply, LLMClient};
use shellm::overlay::{
    preview_append, preview_line, prompt_line, render_reply_block, scroll_deficit, OverlayAction,
    OverlayEvent, OverlayState,
};

fn lines_text(lines: &[shellm::overlay::RenderLine]) -> String {
    let mut s = String::new();
    for l in lines {
        s.push_str(&l.text);
        s.push('\n');
    }
    s
}

/// A scripted language model for the end-to-end scenarios.
struct MockClient {
    reply: Option<ChatReply>,
}

impl LLMClient for MockClient {
    fn chat(&self, _history: &Vec<ChatMessage>, _user_input: &str) -> Result<ChatReply, String> {
        match &self.reply {
            Some(r) => Ok(r.clone()),
            None => Err("mock failure".to_string()),
        }
    }
}

#[test]
fn render_never_exceeds_terminal_height() {
    // A reasoning trace far taller than the terminal: the render must trim
    // it to the screen.
    let mut reasoning = String::new();
    for i in 0..100 {
        reasoning.push_str(&format!("reasoning line number {}\n", i));
    }
    let (lines, used) = render_reply_block(
        &Language::En,
        Some(&reasoning),
        true,
        "the answer",
        Some("ls -la"),
        80,
        24,
    );
    assert!(used <= 24, "used {} rows of 24", used);
    let text = lines_text(&lines);
    assert!(text.contains("(truncated to fit terminal height)"));
    // the newest reasoning lines survive, the oldest are dropped
    assert!(text.contains("reasoning line number 99"));
    assert!(!text.contains("reasoning line number 0\n"));
}

#[test]
fn toggle_roundtrip_renders_same_row_count() {
    let mut st = OverlayState::new();
    st.apply_reply(
        "q".to_string(),
        ChatReply {
            text: "short answer".to_string(),
            suggested_command: Some("ls".to_string()),
            reasoning: Some("one\ntwo\nthree".to_string()),
        },
    );
    st.render_reply(&Language::En, 80, 24);
    let rows_before = st.last_reply_rows;
    assert!(rows_before > 0);

    let act = st.handle_event(OverlayEvent::ToggleReasoning);
    assert!(matches!(act, OverlayAction::ToggleRender));
    st.render_reply(&Language::En, 80, 24);
    let rows_expanded = st.last_reply_rows;
    assert!(rows_expanded > rows_before);

    let act = st.handle_event(OverlayEvent::ToggleReasoning);
    assert!(matches!(act, OverlayAction::ToggleRender));
    st.render_reply(&Language::En, 80, 24);
    assert_eq!(st.last_reply_rows, rows_before);
}

#[test]
fn accept_returns_suggested_command() {
    // End-to-end: empty history, input "ls", scripted reply; the overlay
    // shows the answer, the candidate and the toggle hint, and accept
    // returns the suggested command.
    let client = MockClient {
        reply: Some(ChatReply {
            text: "lists files".to_string(),
            suggested_command: Some("ls -la".to_string()),
            reasoning: Some("check dir".to_string()),
        }),
    };
    let mut st = OverlayState::new();
    st.handle_event(OverlayEvent::Key('l'));
    st.handle_event(OverlayEvent::Key('s'));
    let act = st.handle_event(OverlayEvent::Enter);
    let line = match act {
        OverlayAction::Submit(l) => l,
        other => panic!("expected Submit, got {:?}", discriminant_name(&other)),
    };
    assert_eq!(line, "ls");
    let reply = client.chat(&st.history, &line).unwrap();
    st.apply_reply(line, reply);
    assert_eq!(st.history.len(), 2);
    let lines = st.render_reply(&Language::En, 80, 24);
    let text = lines_text(&lines);
    assert!(text.contains("lists files"));
    assert!(text.contains("ls -la"));
    assert!(text.contains("Ctrl+R"));
    let act = st.handle_event(OverlayEvent::AcceptCommand);
    match act {
        OverlayAction::Leave(cmd) => assert_eq!(cmd.as_deref(), Some("ls -la")),
        other => panic!("expected Leave, got {:?}", discriminant_name(&other)),
    }
}

fn discriminant_name(a: &OverlayAction) -> &'static str {
    match a {
        OverlayAction::Stay => "Stay",
        OverlayAction::Edited => "Edited",
        OverlayAction::Submit(_) => "Submit",
        OverlayAction::ToggleRender => "ToggleRender",
        OverlayAction::Leave(_) => "Leave",
    }
}

#[test]
fn failure_is_shown_and_overlay_stays_interactive() {
    // End-to-end: the call fails; the overlay shows the failure in place of
    // an answer and the next Enter is still accepted.
    let client = MockClient { reply: None };
    let mut st = OverlayState::new();
    st.handle_event(OverlayEvent::Key('h'));
    st.handle_event(OverlayEvent::Key('i'));
    let act = st.handle_event(OverlayEvent::Enter);
    let line = match act {
        OverlayAction::Submit(l) => l,
        _ => panic!("expected Submit"),
    };
    let err = client.chat(&st.history, &line).unwrap_err();
    st.apply_failure(err);
    let lines = st.render_reply(&Language::En, 80, 24);
    assert!(lines_text(&lines).contains("mock failure"));
    assert!(st.last_cmd.is_none());

    st.handle_event(OverlayEvent::Key('o'));
    st.handle_event(OverlayEvent::Key('k'));
    let act = st.handle_event(OverlayEvent::Enter);
    match act {
        OverlayAction::Submit(l) => assert_eq!(l, "ok"),
        _ => panic!("still expected Submit after a failure"),
    }
}

#[test]
fn input_editing_events() {
    let mut st = OverlayState::new();
    st.handle_event(OverlayEvent::Key('a'));
    st.handle_event(OverlayEvent::Paste("x\ny".to_string()));
    assert_eq!(st.input, "ax y");
    st.handle_event(OverlayEvent::Backspace);
    assert_eq!(st.input, "ax ");
    // Enter on a whitespace-only line clears it without submitting
    let mut st2 = OverlayState::new();
    st2.handle_event(OverlayEvent::Key(' '));
    let act = st2.handle_event(OverlayEvent::Enter);
    assert!(matches!(act, OverlayAction::Edited));
    assert_eq!(st2.input, "");
    // Cancel always leaves with no command
    let act = st2.handle_event(OverlayEvent::Cancel);
    assert!(matches!(act, OverlayAction::Leave(None)));
}

#[test]
fn scroll_deficit_counts_missing_rows() {
    // cursor on row 20 of 24: three rows are free below (one is reserved
    // for the prompt), so ten needed rows require seven more.
    assert_eq!(scroll_deficit(10, 24, 20), 7);
    assert_eq!(scroll_deficit(3, 24, 20), 0);
    assert_eq!(scroll_deficit(5, 24, 23), 5);
    assert_eq!(scroll_deficit(0, 24, 0), 0);
}

#[test]
fn preview_keeps_one_row() {
    let mut acc = String::new();
    preview_append(&mut acc, "thinking\nabout");
    preview_append(&mut acc, " things");
    assert_eq!(acc, "thinking about things");
    let shown = preview_line(&acc, &Language::En, 20);
    // "[Thinking] " is 11 columns wide, leaving 20 - 11 - 1 = 8
    assert_eq!(shown, "t things");
}

#[test]
fn prompt_line_shows_input_tail() {
    let line = prompt_line(&Language::En, "1234567890", 12);
    // "you> " is 5 columns wide, leaving 12 - 5 - 1 = 6 for the input
    assert_eq!(line, "you> 567890");
}
