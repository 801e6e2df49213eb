//! The user-visible message strings, in English and Chinese.

use vstd::prelude::*;
use vstd::string::StrSliceExecFns;

verus! {

/// The language the overlay speaks.
#[derive(Debug, Clone, Copy, Default)]
pub enum Language {
    #[default]
    En,
    Zh,
}

/// One of the fixed messages the overlay shows.
#[derive(Debug, Clone, Copy)]
pub enum MessageKey {
    WelcomeMessage,
    PromptUser,
    PromptAssistant,
    PromptCandidate,
    ThinkingProcess,
    HintToggleReasoning,
    ReasoningStart,
    ReasoningEnd,
    ReasoningTruncated,
}

/// The message text for a language and key.
pub open spec fn message(lang: Language, key: MessageKey) -> Seq<char> {
    match (lang, key) {
        (Language::En, MessageKey::WelcomeMessage) => (
        "[LLM chat] Type your question. Ctrl+L accepts the command. Ctrl+C exits. Ctrl+R toggles reasoning."
        )@,
        (Language::Zh, MessageKey::WelcomeMessage) => (
        "[LLM chat] 输入您的问题。Ctrl+L 接受命令，Ctrl+C 退出，Ctrl+R 展开/折叠思维链。"
        )@,
        (Language::En, MessageKey::PromptUser) => ("you> ")@,
        (Language::Zh, MessageKey::PromptUser) => ("你> ")@,
        (Language::En, MessageKey::PromptAssistant) => ("assistant> ")@,
        (Language::Zh, MessageKey::PromptAssistant) => ("助手> ")@,
        (Language::En, MessageKey::PromptCandidate) => ("candidate: ")@,
        (Language::Zh, MessageKey::PromptCandidate) => ("候选命令: ")@,
        (Language::En, MessageKey::ThinkingProcess) => ("[Thinking] ")@,
        (Language::Zh, MessageKey::ThinkingProcess) => ("[思考中] ")@,
        (Language::En, MessageKey::HintToggleReasoning) => (
        "(Ctrl+R to expand/collapse reasoning)"
        )@,
        (Language::Zh, MessageKey::HintToggleReasoning) => ("(Ctrl+R 展开/折叠思维链)")@,
        (Language::En, MessageKey::ReasoningStart) => ("--- Reasoning ---")@,
        (Language::Zh, MessageKey::ReasoningStart) => ("--- 思维链 ---")@,
        (Language::En, MessageKey::ReasoningEnd) => ("--- End ---")@,
        (Language::Zh, MessageKey::ReasoningEnd) => ("--- 结束 ---")@,
        (Language::En, MessageKey::ReasoningTruncated) => (
        "(truncated to fit terminal height)"
        )@,
        (Language::Zh, MessageKey::ReasoningTruncated) => ("（内容过长，已按终端高度截断）")@,
    }
}

/// The message for `key` in `lang`.
pub fn t(lang: &Language, key: MessageKey) -> (r: &'static str)
    ensures
        r@ == message(*lang, key),
{
    match (lang, key) {
        (Language::En, MessageKey::WelcomeMessage) => {
            "[LLM chat] Type your question. Ctrl+L accepts the command. Ctrl+C exits. Ctrl+R toggles reasoning."
        },
        (Language::Zh, MessageKey::WelcomeMessage) => {
            "[LLM chat] 输入您的问题。Ctrl+L 接受命令，Ctrl+C 退出，Ctrl+R 展开/折叠思维链。"
        },
        (Language::En, MessageKey::PromptUser) => "you> ",
        (Language::Zh, MessageKey::PromptUser) => "你> ",
        (Language::En, MessageKey::PromptAssistant) => "assistant> ",
        (Language::Zh, MessageKey::PromptAssistant) => "助手> ",
        (Language::En, MessageKey::PromptCandidate) => "candidate: ",
        (Language::Zh, MessageKey::PromptCandidate) => "候选命令: ",
        (Language::En, MessageKey::ThinkingProcess) => "[Thinking] ",
        (Language::Zh, MessageKey::ThinkingProcess) => "[思考中] ",
        (Language::En, MessageKey::HintToggleReasoning) => "(Ctrl+R to expand/collapse reasoning)",
        (Language::Zh, MessageKey::HintToggleReasoning) => "(Ctrl+R 展开/折叠思维链)",
        (Language::En, MessageKey::ReasoningStart) => "--- Reasoning ---",
        (Language::Zh, MessageKey::ReasoningStart) => "--- 思维链 ---",
        (Language::En, MessageKey::ReasoningEnd) => "--- End ---",
        (Language::Zh, MessageKey::ReasoningEnd) => "--- 结束 ---",
        (Language::En, MessageKey::ReasoningTruncated) => "(truncated to fit terminal height)",
        (Language::Zh, MessageKey::ReasoningTruncated) => "（内容过长，已按终端高度截断）",
    }
}

/// Every message is short: at most 220 columns wide.
pub proof fn lemma_message_width_bound(lang: Language, key: MessageKey)
    ensures
        crate::geometry::display_width(message(lang, key)) <= 220,
{
    crate::geometry::lemma_display_width_le(message(lang, key));
    match (lang, key) {
        (Language::En, MessageKey::WelcomeMessage) => {
            reveal_strlit(
                "[LLM chat] Type your question. Ctrl+L accepts the command. Ctrl+C exits. Ctrl+R toggles reasoning.",
            );
            assert(message(lang, key).len() <= 110);
        },
        (Language::Zh, MessageKey::WelcomeMessage) => {
            reveal_strlit(
                "[LLM chat] 输入您的问题。Ctrl+L 接受命令，Ctrl+C 退出，Ctrl+R 展开/折叠思维链。",
            );
            assert(message(lang, key).len() <= 110);
        },
        (Language::En, MessageKey::PromptUser) => {
            reveal_strlit("you> ");
            assert(message(lang, key).len() <= 110);
        },
        (Language::Zh, MessageKey::PromptUser) => {
            reveal_strlit("你> ");
            assert(message(lang, key).len() <= 110);
        },
        (Language::En, MessageKey::PromptAssistant) => {
            reveal_strlit("assistant> ");
            assert(message(lang, key).len() <= 110);
        },
        (Language::Zh, MessageKey::PromptAssistant) => {
            reveal_strlit("助手> ");
            assert(message(lang, key).len() <= 110);
        },
        (Language::En, MessageKey::PromptCandidate) => {
            reveal_strlit("candidate: ");
            assert(message(lang, key).len() <= 110);
        },
        (Language::Zh, MessageKey::PromptCandidate) => {
            reveal_strlit("候选命令: ");
            assert(message(lang, key).len() <= 110);
        },
        (Language::En, MessageKey::ThinkingProcess) => {
            reveal_strlit("[Thinking] ");
            assert(message(lang, key).len() <= 110);
        },
        (Language::Zh, MessageKey::ThinkingProcess) => {
            reveal_strlit("[思考中] ");
            assert(message(lang, key).len() <= 110);
        },
        (Language::En, MessageKey::HintToggleReasoning) => {
            reveal_strlit("(Ctrl+R to expand/collapse reasoning)");
            assert(message(lang, key).len() <= 110);
        },
        (Language::Zh, MessageKey::HintToggleReasoning) => {
            reveal_strlit("(Ctrl+R 展开/折叠思维链)");
            assert(message(lang, key).len() <= 110);
        },
        (Language::En, MessageKey::ReasoningStart) => {
            reveal_strlit("--- Reasoning ---");
            assert(message(lang, key).len() <= 110);
        },
        (Language::Zh, MessageKey::ReasoningStart) => {
            reveal_strlit("--- 思维链 ---");
            assert(message(lang, key).len() <= 110);
        },
        (Language::En, MessageKey::ReasoningEnd) => {
            reveal_strlit("--- End ---");
            assert(message(lang, key).len() <= 110);
        },
        (Language::Zh, MessageKey::ReasoningEnd) => {
            reveal_strlit("--- 结束 ---");
            assert(message(lang, key).len() <= 110);
        },
        (Language::En, MessageKey::ReasoningTruncated) => {
            reveal_strlit("(truncated to fit terminal height)");
            assert(message(lang, key).len() <= 110);
        },
        (Language::Zh, MessageKey::ReasoningTruncated) => {
            reveal_strlit("（内容过长，已按终端高度截断）");
            assert(message(lang, key).len() <= 110);
        },
    }
}

/// The lowercase form of a character sequence, exactly as
/// `str::to_lowercase` computes it.
pub uninterp spec fn lower_of(s: Seq<char>) -> Seq<char>;

/// Relies on `str::to_lowercase`: the Unicode lowercase mapping; the result
/// depends on the characters alone.
#[verifier::external_body]
fn to_lowercase_str(s: &str) -> (r: String)
    ensures
        r@ == lower_of(s@),
{
    s.to_lowercase()
}

impl Language {
    /// The language a locale tag selects: Chinese when the lowercased tag
    /// starts with "zh", English otherwise.
    pub fn from_str(s: &str) -> (r: Language)
        ensures
            (r is Zh) <==> (lower_of(s@).len() >= 2 && lower_of(s@)[0] == 'z' && lower_of(s@)[1]
                == 'h'),
    {
        let lower = to_lowercase_str(s);
        let ls = lower.as_str();
        if ls.unicode_len() >= 2 && ls.get_char(0) == 'z' && ls.get_char(1) == 'h' {
            Language::Zh
        } else {
            Language::En
        }
    }
}

} // verus!
