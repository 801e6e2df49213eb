//! The conversation data model and the reply post-processing shared with the
//! language-model backend: extracting a JSON payload from a fenced reply and
//! assembling the final chat reply from its fields.

use vstd::prelude::*;
use crate::text::{
    chars_vec, find_sub, find_sub_from, lemma_find_sub_bounds, string_from_chars, subvec,
    trim_chars, trim_spec,
};

verus! {

/// Who spoke one turn of the dialogue.
#[derive(Clone, Copy, Debug)]
pub enum Role {
    User,
    Assistant,
}

/// One turn of the dialogue, immutable once appended.
#[derive(Clone, Debug)]
pub struct ChatMessage {
    pub role: Role,
    pub content: String,
}

/// One reply from the language model: the answer text, an optional suggested
/// command, and an optional reasoning trace.
#[derive(Clone, Debug)]
pub struct ChatReply {
    pub text: String,
    pub suggested_command: Option<String>,
    pub reasoning: Option<String>,
}

/// A reply is well formed when its suggested command, if present, is
/// non-empty, and its reasoning, if present, is non-empty.
pub open spec fn reply_wf(r: ChatReply) -> bool {
    &&& (match r.suggested_command {
        Some(c) => c@.len() > 0,
        None => true,
    })
    &&& (match r.reasoning {
        Some(t) => t@.len() > 0,
        None => true,
    })
}

/// One blocking exchange with the language-model backend: given the prior
/// turns and a new user input, it returns a reply or a displayable error
/// message.  Implementations stream their reasoning fragments through the
/// overlay's preview before returning.
pub trait LLMClient {
    fn chat(&self, history: &Vec<ChatMessage>, user_input: &str) -> Result<ChatReply, String>;
}

/// The opening fence of a JSON code block.
pub open spec fn fence_json() -> Seq<char> {
    seq!['`', '`', '`', 'j', 's', 'o', 'n']
}

/// A bare code fence.
pub open spec fn fence() -> Seq<char> {
    seq!['`', '`', '`']
}

/// The payload inside the first bare code fence of `t`, or `t` itself when
/// no fenced block is closed.
pub open spec fn extract_generic_spec(t: Seq<char>) -> Seq<char> {
    match find_sub(t, fence()) {
        Some(st) => {
            let js = st + 3;
            match find_sub(t.skip(js), fence()) {
                Some(e) => trim_spec(t.subrange(js, js + e)),
                None => t,
            }
        },
        None => t,
    }
}

/// The JSON payload of a reply: the contents of its first closed
/// ```` ```json ```` block, else of its first closed bare ```` ``` ````
/// block, else the trimmed reply itself.
pub open spec fn extract_json_spec(s: Seq<char>) -> Seq<char> {
    let t = trim_spec(s);
    match find_sub(t, fence_json()) {
        Some(st) => {
            let js = st + 7;
            match find_sub(t.skip(js), fence()) {
                Some(e) => trim_spec(t.subrange(js, js + e)),
                None => extract_generic_spec(t),
            }
        },
        None => extract_generic_spec(t),
    }
}

fn fence_json_vec() -> (r: Vec<char>)
    ensures
        r@ == fence_json(),
{
    let mut v: Vec<char> = Vec::new();
    v.push('`');
    v.push('`');
    v.push('`');
    v.push('j');
    v.push('s');
    v.push('o');
    v.push('n');
    proof {
        assert(v@ =~= fence_json());
    }
    v
}

fn fence_vec() -> (r: Vec<char>)
    ensures
        r@ == fence(),
{
    let mut v: Vec<char> = Vec::new();
    v.push('`');
    v.push('`');
    v.push('`');
    proof {
        assert(v@ =~= fence());
    }
    v
}

fn extract_generic_chars(t: &Vec<char>) -> (r: Vec<char>)
    ensures
        r@ == extract_generic_spec(t@),
{
    let f3 = fence_vec();
    let t_len = t.len();
    proof {
        // a vector's length bounds the fence position, so `st + 3` fits
        assert(t@.len() == t_len as int);
        assert(t@.skip(0) =~= t@);
        lemma_find_sub_bounds(t@, fence());
    }
    match find_sub_from(t, &f3, 0) {
        Some(st) => {
            let js = st + 3;
            proof {
                lemma_find_sub_bounds(t@.skip(js as int), fence());
            }
            match find_sub_from(t, &f3, js) {
                Some(abs_e) => {
                    let seg = subvec(t, js, abs_e);
                    let trimmed = trim_chars(&seg);
                    proof {
                        assert(t@.subrange(js as int, js + (abs_e - js)) == seg@);
                    }
                    trimmed
                },
                None => subvec_all(t),
            }
        },
        None => subvec_all(t),
    }
}

fn subvec_all(t: &Vec<char>) -> (r: Vec<char>)
    ensures
        r@ == t@,
{
    let r = subvec(t, 0, t.len());
    proof {
        assert(t@.subrange(0, t@.len() as int) =~= t@);
    }
    r
}

/// The JSON payload of the reply text: the contents of its first closed
/// ```` ```json ```` block, else of its first closed bare code fence, else
/// the trimmed text itself.
pub fn extract_json(content: &str) -> (r: String)
    ensures
        r@ == extract_json_spec(content@),
{
    let cs = chars_vec(content);
    let t = trim_chars(&cs);
    let f7 = fence_json_vec();
    let f3 = fence_vec();
    let t_len = t.len();
    proof {
        // a vector's length bounds the fence position, so `st + 7` fits
        assert(t@.len() == t_len as int);
        assert(t@.skip(0) =~= t@);
        lemma_find_sub_bounds(t@, fence_json());
    }
    let picked: Vec<char> = match find_sub_from(&t, &f7, 0) {
        Some(st) => {
            let js = st + 7;
            proof {
                lemma_find_sub_bounds(t@.skip(js as int), fence());
            }
            match find_sub_from(&t, &f3, js) {
                Some(abs_e) => {
                    let seg = subvec(&t, js, abs_e);
                    let trimmed = trim_chars(&seg);
                    proof {
                        assert(t@.subrange(js as int, js + (abs_e - js)) == seg@);
                    }
                    trimmed
                },
                None => extract_generic_chars(&t),
            }
        },
        None => extract_generic_chars(&t),
    };
    string_from_chars(&picked)
}

/// The fields a structured reply payload may carry.
pub struct ReplyPayload {
    pub command: Option<String>,
    pub answer: Option<String>,
    pub note: Option<String>,
    pub explanation: Option<String>,
    pub message: Option<String>,
}

/// The display text a payload selects: the first of answer, note,
/// explanation and message that is present, or empty text.
pub open spec fn payload_text(p: ReplyPayload) -> Seq<char> {
    match p.answer {
        Some(a) => a@,
        None => match p.note {
            Some(a) => a@,
            None => match p.explanation {
                Some(a) => a@,
                None => match p.message {
                    Some(a) => a@,
                    None => Seq::empty(),
                },
            },
        },
    }
}

/// Assembles the reply shown to the user from the accumulated reply text,
/// the accumulated reasoning trace, and the parsed payload, if the text
/// parsed as one.  The payload's display text stands in for the raw text
/// unless it is empty; without a payload the raw text is shown verbatim and
/// no command is suggested; an empty suggested command counts as none.
pub fn build_reply(content: String, reasoning: String, parsed: Option<ReplyPayload>) -> (r:
    ChatReply)
    ensures
        reply_wf(r),
        r.reasoning == (if reasoning@.len() == 0 {
            Option::<String>::None
        } else {
            Some(reasoning)
        }),
        (match parsed {
            Some(p) => {
                &&& (match p.command {
                    Some(c) => (if c@.len() > 0 {
                        r.suggested_command == Some(c)
                    } else {
                        r.suggested_command is None
                    }),
                    None => r.suggested_command is None,
                })
                &&& r.text@ == (if payload_text(p).len() == 0 {
                    content@
                } else {
                    payload_text(p)
                })
            },
            None => r.suggested_command is None && r.text == content,
        }),
{
    let reasoning_opt = if reasoning.as_str().unicode_len() == 0 {
        None
    } else {
        Some(reasoning)
    };
    match parsed {
        Some(p) => {
            let command = match p.command {
                Some(c) => {
                    if c.as_str().unicode_len() > 0 {
                        Some(c)
                    } else {
                        None
                    }
                },
                None => None,
            };
            let display = match p.answer {
                Some(a) => Some(a),
                None => match p.note {
                    Some(a) => Some(a),
                    None => match p.explanation {
                        Some(a) => Some(a),
                        None => match p.message {
                            Some(a) => Some(a),
                            None => None,
                        },
                    },
                },
            };
            let text = match display {
                Some(d) => {
                    if d.as_str().unicode_len() == 0 {
                        content
                    } else {
                        d
                    }
                },
                None => content,
            };
            ChatReply { text, suggested_command: command, reasoning: reasoning_opt }
        },
        None => ChatReply { text: content, suggested_command: None, reasoning: reasoning_opt },
    }
}

} // verus!
