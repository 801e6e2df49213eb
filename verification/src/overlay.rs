//! The chat overlay: its state machine, the geometry of reply rendering,
//! and the single-line streaming preview.
//!
//! The overlay owns the terminal while active.  The caller runs the event
//! loop: it reads key events, hands each to `handle_event`, performs the
//! returned action — calling the language model on `Submit`, erasing and
//! re-rendering on `ToggleRender`, leaving on `Leave` — and draws whatever
//! `render_reply` and `prompt_line` hand back.

use vstd::prelude::*;
use vstd::string::{StrSliceExecFns, StringExecFns};
use crate::geometry::{
    approx_display_width, display_width, flatten_nl, norm_spec, normalize_to_single_line,
    truncate_tail_by_width, truncate_tail_spec, wrap_rows, wrap_rows_chars, wrap_rows_spec,
};
use crate::i18n::{lemma_message_width_bound, message, t, Language, MessageKey};
use crate::llm::{ChatMessage, ChatReply, Role};
use crate::text::{
    chars_vec, push_char, split_lines, split_lines_chars, string_from_chars, subvec,
    trim_end_chars, trim_end_spec,
};

verus! {

/// The state of an active chat overlay.
pub struct OverlayState {
    /// The dialogue so far, oldest first.
    pub history: Vec<ChatMessage>,
    /// The line being typed.
    pub input: String,
    /// The last reply's suggested command, if any.
    pub last_cmd: Option<String>,
    /// The last reply's answer text, if any reply arrived yet.
    pub last_answer: Option<String>,
    /// The last reply's reasoning trace, if any.
    pub last_reasoning: Option<String>,
    /// Whether the reasoning trace is shown expanded.
    pub reasoning_expanded: bool,
    /// How many terminal rows the last render wrote; a later erase must
    /// remove exactly this many.
    pub last_reply_rows: usize,
}

/// One input the overlay reacts to.
pub enum OverlayEvent {
    /// The enter key: submit the typed line.
    Enter,
    /// The toggle hotkey: expand or collapse the reasoning trace.
    ToggleReasoning,
    /// The accept hotkey: leave with the suggested command.
    AcceptCommand,
    /// The cancel hotkey: leave without a command.
    Cancel,
    /// Delete the last typed character.
    Backspace,
    /// One typed character.
    Key(char),
    /// Pasted text.
    Paste(String),
}

/// What the caller must do after an event was handled.
pub enum OverlayAction {
    /// Nothing changed.
    Stay,
    /// The input line changed: redraw the prompt line.
    Edited,
    /// Call the language model with this line, then apply the outcome and
    /// render the reply.
    Submit(String),
    /// The reasoning toggle flipped: erase the last reply's rows and render
    /// it again.
    ToggleRender,
    /// Leave the overlay, handing the caller this command to inject, if any.
    Leave(Option<String>),
}

/// Both states agree on everything but the input line.
pub open spec fn same_but_input(a: OverlayState, b: OverlayState) -> bool {
    &&& a.history == b.history
    &&& a.last_cmd == b.last_cmd
    &&& a.last_answer == b.last_answer
    &&& a.last_reasoning == b.last_reasoning
    &&& a.reasoning_expanded == b.reasoning_expanded
    &&& a.last_reply_rows == b.last_reply_rows
}

/// `b` is `a` with the reasoning toggle flipped.
pub open spec fn toggled(a: OverlayState, b: OverlayState) -> bool {
    &&& a.history == b.history
    &&& a.input == b.input
    &&& a.last_cmd == b.last_cmd
    &&& a.last_answer == b.last_answer
    &&& a.last_reasoning == b.last_reasoning
    &&& b.reasoning_expanded == !a.reasoning_expanded
    &&& a.last_reply_rows == b.last_reply_rows
}

impl OverlayState {
    /// A fresh overlay: empty history, empty input, nothing rendered.
    pub fn new() -> (r: OverlayState)
        ensures
            r.history@.len() == 0,
            r.input@.len() == 0,
            r.last_cmd is None,
            r.last_answer is None,
            r.last_reasoning is None,
            !r.reasoning_expanded,
            r.last_reply_rows == 0,
    {
        OverlayState {
            history: Vec::new(),
            input: String::new(),
            last_cmd: None,
            last_answer: None,
            last_reasoning: None,
            reasoning_expanded: false,
            last_reply_rows: 0,
        }
    }

    /// Reacts to one event.  Enter submits the input line with trailing
    /// whitespace removed, or only clears it when nothing remains; the
    /// toggle flips the reasoning view when a reasoning trace was rendered;
    /// accept leaves with the suggested command when there is one; cancel
    /// always leaves; backspace, typed characters and pastes edit the input
    /// line, a paste with its line breaks flattened to spaces.
    pub fn handle_event(&mut self, ev: OverlayEvent) -> (act: OverlayAction)
        ensures
            match ev {
                OverlayEvent::Enter => {
                    let line = trim_end_spec(old(self).input@);
                    &&& same_but_input(*old(self), *final(self))
                    &&& final(self).input@.len() == 0
                    &&& (if line.len() == 0 {
                        act is Edited
                    } else {
                        act matches OverlayAction::Submit(l) && l@ == line
                    })
                },
                OverlayEvent::ToggleReasoning => {
                    if old(self).last_reasoning is Some && old(self).last_reply_rows > 0 {
                        toggled(*old(self), *final(self)) && act is ToggleRender
                    } else {
                        *final(self) == *old(self) && act is Stay
                    }
                },
                OverlayEvent::AcceptCommand => {
                    &&& *final(self) == *old(self)
                    &&& (match old(self).last_cmd {
                        Some(c) => act == OverlayAction::Leave(Some(c)),
                        None => act is Stay,
                    })
                },
                OverlayEvent::Cancel => *final(self) == *old(self) && act == OverlayAction::Leave(
                    None,
                ),
                OverlayEvent::Backspace => {
                    &&& same_but_input(*old(self), *final(self))
                    &&& (if old(self).input@.len() > 0 {
                        final(self).input@ == old(self).input@.drop_last() && act is Edited
                    } else {
                        *final(self) == *old(self) && act is Stay
                    })
                },
                OverlayEvent::Key(c) => {
                    &&& same_but_input(*old(self), *final(self))
                    &&& final(self).input@ == old(self).input@.push(c)
                    &&& act is Edited
                },
                OverlayEvent::Paste(p) => {
                    &&& same_but_input(*old(self), *final(self))
                    &&& final(self).input@ == old(self).input@ + flatten_nl(p@)
                    &&& act is Edited
                },
            },
    {
        match ev {
            OverlayEvent::Enter => {
                let cs = chars_vec(self.input.as_str());
                let trimmed = trim_end_chars(&cs);
                let line = string_from_chars(&trimmed);
                self.input = String::new();
                if line.as_str().unicode_len() == 0 {
                    OverlayAction::Edited
                } else {
                    OverlayAction::Submit(line)
                }
            },
            OverlayEvent::ToggleReasoning => {
                if self.last_reasoning.is_some() && self.last_reply_rows > 0 {
                    self.reasoning_expanded = !self.reasoning_expanded;
                    OverlayAction::ToggleRender
                } else {
                    OverlayAction::Stay
                }
            },
            OverlayEvent::AcceptCommand => {
                match &self.last_cmd {
                    Some(c) => OverlayAction::Leave(Some(c.clone())),
                    None => OverlayAction::Stay,
                }
            },
            OverlayEvent::Cancel => OverlayAction::Leave(None),
            OverlayEvent::Backspace => {
                let cs = chars_vec(self.input.as_str());
                if cs.len() > 0 {
                    let shorter = subvec(&cs, 0, cs.len() - 1);
                    proof {
                        assert(cs@.subrange(0, cs@.len() - 1) =~= cs@.drop_last());
                    }
                    self.input = string_from_chars(&shorter);
                    OverlayAction::Edited
                } else {
                    OverlayAction::Stay
                }
            },
            OverlayEvent::Key(c) => {
                push_char(&mut self.input, c);
                OverlayAction::Edited
            },
            OverlayEvent::Paste(p) => {
                let cs = chars_vec(p.as_str());
                let ghost start = self.input@;
                let mut i: usize = 0;
                proof {
                    assert(self.input@ =~= start + flatten_nl(p@.take(0)));
                }
                while i < cs.len()
                    invariant
                        i <= cs@.len(),
                        cs@ == p@,
                        same_but_input(*old(self), *self),
                        self.input@ == start + flatten_nl(p@.take(i as int)),
                    decreases cs@.len() - i,
                {
                    let c = cs[i];
                    if c == '\n' || c == '\r' {
                        push_char(&mut self.input, ' ');
                    } else {
                        push_char(&mut self.input, c);
                    }
                    proof {
                        assert(self.input@ =~= start + flatten_nl(p@.take(i + 1)));
                    }
                    i = i + 1;
                }
                proof {
                    assert(p@.take(p@.len() as int) =~= p@);
                }
                OverlayAction::Edited
            },
        }
    }

    /// Applies a successful reply to the submitted line: records the answer,
    /// the non-empty suggested command if any, and the reasoning trace
    /// collapsed, and appends the user line and the assistant's text to the
    /// history.
    pub fn apply_reply(&mut self, line: String, reply: ChatReply)
        ensures
            final(self).history@ == old(self).history@ + seq![
                (ChatMessage { role: Role::User, content: line }),
                (ChatMessage { role: Role::Assistant, content: reply.text }),
            ],
            final(self).last_answer == Some(reply.text),
            final(self).last_cmd == (match reply.suggested_command {
                Some(c) => if c@.len() > 0 {
                    Some(c)
                } else {
                    None::<String>
                },
                None => None::<String>,
            }),
            final(self).last_reasoning == reply.reasoning,
            !final(self).reasoning_expanded,
            final(self).input == old(self).input,
            final(self).last_reply_rows == old(self).last_reply_rows,
    {
        let ChatReply { text, suggested_command, reasoning } = reply;
        self.last_reasoning = reasoning;
        self.reasoning_expanded = false;
        self.last_cmd = match suggested_command {
            Some(c) => {
                if c.as_str().unicode_len() > 0 {
                    Some(c)
                } else {
                    None
                }
            },
            None => None,
        };
        let ghost hist0 = self.history@;
        self.history.push(ChatMessage { role: Role::User, content: line });
        self.history.push(ChatMessage { role: Role::Assistant, content: text.clone() });
        self.last_answer = Some(text);
        proof {
            assert(self.history@ =~= hist0 + seq![
                self.history@[hist0.len() as int],
                self.history@[hist0.len() as int + 1],
            ]);
        }
    }

    /// Applies a failed call: the message is shown in place of an answer,
    /// no command is suggested, no reasoning is kept, and the overlay stays
    /// in its collecting state with history and input untouched.
    pub fn apply_failure(&mut self, display: String)
        ensures
            final(self).last_answer == Some(display),
            final(self).last_cmd is None,
            final(self).last_reasoning is None,
            !final(self).reasoning_expanded,
            final(self).history == old(self).history,
            final(self).input == old(self).input,
            final(self).last_reply_rows == old(self).last_reply_rows,
    {
        self.last_answer = Some(display);
        self.last_cmd = None;
        self.last_reasoning = None;
        self.reasoning_expanded = false;
    }
}

/// The view of an optional borrowed string.
pub open spec fn opt_str_view(o: Option<&str>) -> Option<Seq<char>> {
    match o {
        Some(s) => Some(s@),
        None => None,
    }
}

/// The answer line as shown: the assistant prompt followed by the answer
/// flattened to one line.
pub open spec fn assistant_line(lang: Language, answer: Seq<char>) -> Seq<char> {
    message(lang, MessageKey::PromptAssistant) + norm_spec(answer)
}

/// Rows the answer line occupies.
pub open spec fn assistant_rows(lang: Language, answer: Seq<char>, cols: nat) -> nat {
    wrap_rows_spec(display_width(assistant_line(lang, answer)), cols)
}

/// The candidate line as shown: the candidate prompt followed by the
/// command flattened to one line.
pub open spec fn candidate_line(lang: Language, cmd: Seq<char>) -> Seq<char> {
    message(lang, MessageKey::PromptCandidate) + norm_spec(cmd)
}

/// Whether a candidate line is shown at all.
pub open spec fn has_candidate(cmd: Option<Seq<char>>) -> bool {
    match cmd {
        Some(c) => norm_spec(c).len() > 0,
        None => false,
    }
}

/// Rows the candidate line occupies; none without a non-empty command.
pub open spec fn candidate_rows(lang: Language, cmd: Option<Seq<char>>, cols: nat) -> nat {
    match cmd {
        Some(c) => if norm_spec(c).len() == 0 {
            0
        } else {
            wrap_rows_spec(display_width(candidate_line(lang, c)), cols)
        },
        None => 0,
    }
}

/// Rows one fixed message occupies.
pub open spec fn msg_rows(lang: Language, key: MessageKey, cols: nat) -> nat {
    wrap_rows_spec(display_width(message(lang, key)), cols)
}

/// Total rows a list of lines occupies, each wrapped on its own.
pub open spec fn lines_rows(lines: Seq<Seq<char>>, cols: nat) -> nat
    decreases lines.len(),
{
    if lines.len() == 0 {
        0
    } else {
        wrap_rows_spec(display_width(lines[0]), cols) + lines_rows(lines.skip(1), cols)
    }
}

proof fn lemma_lines_rows_append(a: Seq<Seq<char>>, b: Seq<Seq<char>>, cols: nat)
    ensures
        lines_rows(a + b, cols) == lines_rows(a, cols) + lines_rows(b, cols),
    decreases a.len(),
{
    if a.len() == 0 {
        assert(a + b =~= b);
    } else {
        assert((a + b)[0] == a[0]);
        assert((a + b).skip(1) =~= a.skip(1) + b);
        lemma_lines_rows_append(a.skip(1), b, cols);
    }
}

/// Rows the reasoning part of a reply is budgeted at before rendering: the
/// hint line when collapsed; when expanded, the start and end markers, the
/// full content, and room for a truncation notice.
pub open spec fn reasoning_rows_estimate(
    lang: Language,
    reasoning: Option<Seq<char>>,
    expanded: bool,
    cols: nat,
) -> nat {
    match reasoning {
        None => 0,
        Some(r) => if expanded {
            msg_rows(lang, MessageKey::ReasoningStart, cols) + lines_rows(split_lines(r), cols)
                + msg_rows(lang, MessageKey::ReasoningTruncated, cols) + msg_rows(
                lang,
                MessageKey::ReasoningEnd,
                cols,
            )
        } else {
            msg_rows(lang, MessageKey::HintToggleReasoning, cols)
        },
    }
}

/// Rows a reply is budgeted at before rendering.
pub open spec fn calc_rows_spec(
    lang: Language,
    reasoning: Option<Seq<char>>,
    expanded: bool,
    answer: Seq<char>,
    cmd: Option<Seq<char>>,
    cols: nat,
) -> nat {
    reasoning_rows_estimate(lang, reasoning, expanded, cols) + assistant_rows(lang, answer, cols)
        + candidate_rows(lang, cmd, cols)
}

/// Every line of the text is narrow enough for width arithmetic in the
/// given column count.
pub open spec fn lines_fit(r: Seq<char>, cols: nat) -> bool {
    forall|k: int|
        #![trigger split_lines(r)[k]]
        0 <= k < split_lines(r).len() ==> display_width(split_lines(r)[k]) + cols <= usize::MAX
}

/// The machine limits the row computations need: a terminal-sized column
/// count, and every composed line narrow enough for its width arithmetic.
pub open spec fn geometry_fits(
    lang: Language,
    reasoning: Option<Seq<char>>,
    answer: Seq<char>,
    cmd: Option<Seq<char>>,
    cols: nat,
) -> bool {
    &&& cols <= 0xffff
    &&& display_width(assistant_line(lang, answer)) + cols <= usize::MAX
    &&& (match cmd {
        Some(c) => display_width(candidate_line(lang, c)) + cols <= usize::MAX,
        None => true,
    })
    &&& (match reasoning {
        Some(r) => lines_fit(r, cols),
        None => true,
    })
}

/// The number of terminal rows a reply will occupy, before drawing it: the
/// reasoning block or its hint, the answer line, and the candidate line.
pub fn calculate_reply_rows(
    lang: &Language,
    reasoning: Option<&str>,
    reasoning_expanded: bool,
    answer: &str,
    cmd: Option<&str>,
    term_cols: usize,
) -> (r: usize)
    requires
        geometry_fits(*lang, opt_str_view(reasoning), answer@, opt_str_view(cmd), term_cols as nat),
        calc_rows_spec(
            *lang,
            opt_str_view(reasoning),
            reasoning_expanded,
            answer@,
            opt_str_view(cmd),
            term_cols as nat,
        ) <= usize::MAX,
    ensures
        r == calc_rows_spec(
            *lang,
            opt_str_view(reasoning),
            reasoning_expanded,
            answer@,
            opt_str_view(cmd),
            term_cols as nat,
        ),
{
    let norm_answer = normalize_to_single_line(answer);
    let aprompt = t(lang, MessageKey::PromptAssistant);
    let mut avisible = String::from_str(aprompt);
    avisible.append(norm_answer.as_str());
    proof {
        assert(avisible@ == assistant_line(*lang, answer@));
    }
    let a_rows = wrap_rows(avisible.as_str(), term_cols);

    let c_rows: usize = match cmd {
        Some(c) => {
            let nc = normalize_to_single_line(c);
            if nc.as_str().unicode_len() == 0 {
                0
            } else {
                let cprompt = t(lang, MessageKey::PromptCandidate);
                let mut cvisible = String::from_str(cprompt);
                cvisible.append(nc.as_str());
                proof {
                    assert(cvisible@ == candidate_line(*lang, c@));
                }
                wrap_rows(cvisible.as_str(), term_cols)
            }
        },
        None => 0,
    };

    let r_rows: usize = match reasoning {
        Some(rsn) => {
            if reasoning_expanded {
                proof {
                    lemma_message_width_bound(*lang, MessageKey::ReasoningStart);
                    lemma_message_width_bound(*lang, MessageKey::ReasoningEnd);
                    lemma_message_width_bound(*lang, MessageKey::ReasoningTruncated);
                }
                let start_rows = wrap_rows(t(lang, MessageKey::ReasoningStart), term_cols);
                let end_rows = wrap_rows(t(lang, MessageKey::ReasoningEnd), term_cols);
                let trunc_rows = wrap_rows(t(lang, MessageKey::ReasoningTruncated), term_cols);
                let content = reasoning_content_rows(rsn, term_cols);
                start_rows + content + trunc_rows + end_rows
            } else {
                proof {
                    lemma_message_width_bound(*lang, MessageKey::HintToggleReasoning);
                }
                wrap_rows(t(lang, MessageKey::HintToggleReasoning), term_cols)
            }
        },
        None => 0,
    };
    r_rows + a_rows + c_rows
}

/// Total rows of the reasoning content, one wrapped row count per line.
fn reasoning_content_rows(rsn: &str, term_cols: usize) -> (r: usize)
    requires
        lines_fit(rsn@, term_cols as nat),
        lines_rows(split_lines(rsn@), term_cols as nat) <= usize::MAX,
    ensures
        r == lines_rows(split_lines(rsn@), term_cols as nat),
{
    let cs = chars_vec(rsn);
    let lines = split_lines_chars(&cs);
    let ghost lv = split_lines(rsn@);
    let mut content: usize = 0;
    let mut k: usize = 0;
    proof {
        assert(lv.take(0).len() == 0);
    }
    while k < lines.len()
        invariant
            k <= lines@.len(),
            lines.deep_view() == lv,
            lv == split_lines(rsn@),
            content == lines_rows(lv.take(k as int), term_cols as nat),
            lines_rows(lv, term_cols as nat) <= usize::MAX,
            lines_fit(rsn@, term_cols as nat),
        decreases lines@.len() - k,
    {
        proof {
            assert(lines.deep_view()[k as int] == lines@[k as int]@);
        }
        let lr = wrap_rows_chars(&lines[k], term_cols);
        proof {
            assert(lv.take(k + 1) =~= lv.take(k as int) + seq![lv[k as int]]);
            lemma_lines_rows_append(lv.take(k as int), seq![lv[k as int]], term_cols as nat);
            assert(seq![lv[k as int]].skip(1).len() == 0);
            assert(lines_rows(seq![lv[k as int]].skip(1), term_cols as nat) == 0);
            assert(seq![lv[k as int]][0] == lv[k as int]);
            assert(lines_rows(seq![lv[k as int]], term_cols as nat) == wrap_rows_spec(
                display_width(lv[k as int]),
                term_cols as nat,
            ));
            assert(lv.take(k + 1) + lv.skip(k + 1) =~= lv);
            lemma_lines_rows_append(lv.take(k + 1), lv.skip(k + 1), term_cols as nat);
        }
        content = content + lr;
        k = k + 1;
    }
    proof {
        assert(lv.take(lv.len() as int) =~= lv);
    }
    content
}

/// One line of a rendered reply: its visible text, whether it is shown
/// dimmed, and whether the terminal line is cleared before writing it.
pub struct RenderLine {
    pub text: String,
    pub dim: bool,
    pub clear_first: bool,
}

/// The (text, dim, clear) triples of a line list.
pub open spec fn line_views(v: Seq<RenderLine>) -> Seq<(Seq<char>, bool, bool)> {
    v.map_values(|l: RenderLine| (l.text@, l.dim, l.clear_first))
}

/// A tail of the reasoning lines chosen to fit a row budget.
pub ghost struct TailSel {
    pub lines: Seq<Seq<char>>,
    pub rows: nat,
}

/// Chooses reasoning lines from the newest backwards while they fit the
/// budget; the line on the boundary is kept as a width-bounded tail of
/// itself, counted at the full remaining budget, or dropped when nothing
/// of it fits.
pub open spec fn select_tail(lines: Seq<Seq<char>>, budget: nat, cols: nat) -> TailSel
    decreases lines.len(),
{
    if lines.len() == 0 {
        TailSel { lines: Seq::empty(), rows: 0 }
    } else {
        let last = lines.last();
        let r = wrap_rows_spec(display_width(last), cols);
        if r <= budget {
            let rest = select_tail(lines.drop_last(), (budget - r) as nat, cols);
            TailSel { lines: rest.lines.push(last), rows: rest.rows + r }
        } else if budget == 0 {
            TailSel { lines: Seq::empty(), rows: 0 }
        } else {
            let tr = truncate_tail_spec(last, budget * cols);
            if tr.len() > 0 {
                TailSel { lines: seq![tr], rows: budget }
            } else {
                TailSel { lines: Seq::empty(), rows: 0 }
            }
        }
    }
}

/// The chosen tail never exceeds its budget.
pub proof fn lemma_select_tail_rows(lines: Seq<Seq<char>>, budget: nat, cols: nat)
    ensures
        select_tail(lines, budget, cols).rows <= budget,
    decreases lines.len(),
{
    if lines.len() > 0 {
        let r = wrap_rows_spec(display_width(lines.last()), cols);
        if r <= budget {
            lemma_select_tail_rows(lines.drop_last(), (budget - r) as nat, cols);
        }
    }
}

/// Rows a render writes: everything the row estimate counts, except that
/// expanded reasoning content is trimmed to the height left over once the
/// markers, the answer and the candidate are reserved — or falls back to
/// the collapsed hint when even the reserve does not fit.
pub open spec fn render_rows_spec(
    lang: Language,
    reasoning: Option<Seq<char>>,
    expanded: bool,
    answer: Seq<char>,
    cmd: Option<Seq<char>>,
    cols: nat,
    max_rows: nat,
) -> nat {
    let a = assistant_rows(lang, answer, cols);
    let c = candidate_rows(lang, cmd, cols);
    match reasoning {
        None => a + c,
        Some(rsn) => {
            if !expanded {
                msg_rows(lang, MessageKey::HintToggleReasoning, cols) + a + c
            } else {
                let start = msg_rows(lang, MessageKey::ReasoningStart, cols);
                let endr = msg_rows(lang, MessageKey::ReasoningEnd, cols);
                let reserved = a + c + start + endr;
                if reserved >= max_rows {
                    msg_rows(lang, MessageKey::HintToggleReasoning, cols) + a + c
                } else {
                    let budget = (max_rows - reserved) as nat;
                    let lines = split_lines(rsn);
                    let total = lines_rows(lines, cols);
                    let trows = msg_rows(lang, MessageKey::ReasoningTruncated, cols);
                    let show_trunc = total > budget;
                    let budget2 = if show_trunc {
                        if trows >= budget {
                            0nat
                        } else {
                            (budget - trows) as nat
                        }
                    } else {
                        budget
                    };
                    let sel = select_tail(lines, budget2, cols);
                    start + (if show_trunc {
                        trows
                    } else {
                        0nat
                    }) + sel.rows + endr + a + c
                }
            }
        },
    }
}

/// Plain (undimmed, uncleared) line triples.
pub open spec fn seg_plain(ls: Seq<Seq<char>>) -> Seq<(Seq<char>, bool, bool)> {
    ls.map_values(|l: Seq<char>| (l, false, false))
}

/// The lines a render writes, top to bottom.
pub open spec fn render_lines_spec(
    lang: Language,
    reasoning: Option<Seq<char>>,
    expanded: bool,
    answer: Seq<char>,
    cmd: Option<Seq<char>>,
    cols: nat,
    max_rows: nat,
) -> Seq<(Seq<char>, bool, bool)> {
    let alines = seq![(assistant_line(lang, answer), false, false)];
    let clines = (match cmd {
        Some(c) => if norm_spec(c).len() == 0 {
            Seq::<(Seq<char>, bool, bool)>::empty()
        } else {
            seq![(candidate_line(lang, c), false, true)]
        },
        None => Seq::<(Seq<char>, bool, bool)>::empty(),
    });
    let tail = alines + clines;
    let hint = seq![(message(lang, MessageKey::HintToggleReasoning), true, false)];
    match reasoning {
        None => tail,
        Some(rsn) => {
            if !expanded {
                hint + tail
            } else {
                let a = assistant_rows(lang, answer, cols);
                let c = candidate_rows(lang, cmd, cols);
                let start = msg_rows(lang, MessageKey::ReasoningStart, cols);
                let endr = msg_rows(lang, MessageKey::ReasoningEnd, cols);
                let reserved = a + c + start + endr;
                if reserved >= max_rows {
                    hint + tail
                } else {
                    let budget = (max_rows - reserved) as nat;
                    let lines = split_lines(rsn);
                    let total = lines_rows(lines, cols);
                    let trows = msg_rows(lang, MessageKey::ReasoningTruncated, cols);
                    let show_trunc = total > budget;
                    let budget2 = if show_trunc {
                        if trows >= budget {
                            0nat
                        } else {
                            (budget - trows) as nat
                        }
                    } else {
                        budget
                    };
                    let sel = select_tail(lines, budget2, cols);
                    let startl = seq![(message(lang, MessageKey::ReasoningStart), true, false)];
                    let truncl = (if show_trunc {
                        seq![(message(lang, MessageKey::ReasoningTruncated), true, false)]
                    } else {
                        Seq::<(Seq<char>, bool, bool)>::empty()
                    });
                    let endl = seq![(message(lang, MessageKey::ReasoningEnd), true, false)];
                    startl + truncl + seg_plain(sel.lines) + endl + tail
                }
            }
        },
    }
}

/// A wrapped row count never exceeds the width plus one.
proof fn lemma_wrap_rows_le(w: nat, cols: nat)
    ensures
        wrap_rows_spec(w, cols) <= w + 1,
{
    if cols >= 1 {
        let w1: int = if w == 0 {
            1
        } else {
            w as int
        };
        assert((w1 + cols - 1) / (cols as int) <= w1) by (nonlinear_arith)
            requires
                cols >= 1,
                w1 >= 1,
        ;
    }
}

/// A fixed message occupies at most 221 rows.
proof fn lemma_msg_rows_bound(lang: Language, key: MessageKey, cols: nat)
    ensures
        msg_rows(lang, key, cols) <= 221,
{
    lemma_message_width_bound(lang, key);
    lemma_wrap_rows_le(display_width(message(lang, key)), cols);
}

/// The chosen reasoning tail, walking `lines[..upto]` from its end.
fn select_tail_exec(lines: &Vec<Vec<char>>, upto: usize, budget: usize, cols: usize) -> (out: (
    Vec<Vec<char>>,
    usize,
))
    requires
        upto <= lines@.len(),
        forall|k: int|
            0 <= k < lines@.len() ==> display_width(lines.deep_view()[k]) + cols <= usize::MAX,
        budget * cols <= usize::MAX,
    ensures
        ({
            let sel = select_tail(lines.deep_view().take(upto as int), budget as nat, cols as nat);
            out.0.deep_view() == sel.lines && out.1 == sel.rows
        }),
    decreases upto,
{
    let ghost lv = lines.deep_view();
    if upto == 0 {
        proof {
            assert(lv.take(0).len() == 0);
        }
        let empty_sel: Vec<Vec<char>> = Vec::new();
        proof {
            assert(empty_sel.deep_view() =~~= select_tail(lv.take(0), budget as nat,
            cols as nat).lines);
        }
        return (empty_sel, 0);
    }
    let last = &lines[upto - 1];
    proof {
        assert(lv[upto - 1] == lines@[upto - 1]@);
        assert(lv.take(upto as int).last() == lv[upto - 1]);
        assert(lv.take(upto as int).drop_last() =~= lv.take(upto - 1));
    }
    let r = wrap_rows_chars(last, cols);
    if r <= budget {
        proof {
            assert((budget - r) * cols <= budget * cols) by (nonlinear_arith)
                requires
                    0 <= r <= budget,
                    cols >= 0,
            ;
            lemma_select_tail_rows(lv.take(upto - 1), (budget - r) as nat, cols as nat);
        }
        let picked = select_tail_exec(lines, upto - 1, budget - r, cols);
        let mut ls = picked.0;
        let rows = picked.1;
        let copy = subvec(last, 0, last.len());
        proof {
            assert(last@.subrange(0, last@.len() as int) =~= last@);
        }
        let ghost prev = ls.deep_view();
        ls.push(copy);
        proof {
            assert(ls.deep_view() =~~= prev.push(lv[upto - 1]));
            assert(ls.deep_view() =~~= select_tail(lv.take(upto as int), budget as nat,
            cols as nat).lines);
        }
        (ls, rows + r)
    } else if budget == 0 {
        let empty_sel: Vec<Vec<char>> = Vec::new();
        proof {
            assert(empty_sel.deep_view() =~~= select_tail(lv.take(upto as int), budget as nat,
            cols as nat).lines);
        }
        (empty_sel, 0)
    } else {
        let maxw = budget * cols;
        let tr = crate::geometry::truncate_tail_chars(last, maxw);
        if tr.len() > 0 {
            let mut ls: Vec<Vec<char>> = Vec::new();
            let ghost trv = tr@;
            ls.push(tr);
            proof {
                assert(ls.deep_view() =~~= seq![trv]);
                assert(ls.deep_view() =~~= select_tail(lv.take(upto as int), budget as nat,
                cols as nat).lines);
            }
            (ls, budget)
        } else {
            let empty_sel: Vec<Vec<char>> = Vec::new();
            proof {
                assert(empty_sel.deep_view() =~~= select_tail(lv.take(upto as int), budget as nat,
                cols as nat).lines);
            }
            (empty_sel, 0)
        }
    }
}

/// Renders a reply into its lines, trimming expanded reasoning to the row
/// budget, and returns them with the exact number of terminal rows they
/// occupy — the count a later erase must remove.
#[verifier::rlimit(100)]
#[verifier::spinoff_prover]
pub fn render_reply_block(
    lang: &Language,
    reasoning: Option<&str>,
    reasoning_expanded: bool,
    answer: &str,
    cmd: Option<&str>,
    term_cols: usize,
    max_rows: usize,
) -> (out: (Vec<RenderLine>, usize))
    requires
        geometry_fits(*lang, opt_str_view(reasoning), answer@, opt_str_view(cmd), term_cols as nat),
        (match reasoning {
            Some(rr) => lines_rows(split_lines(rr@), term_cols as nat) <= usize::MAX,
            None => true,
        }),
        max_rows <= 0xffff,
        max_rows * term_cols <= usize::MAX,
        assistant_rows(*lang, answer@, term_cols as nat) + candidate_rows(
            *lang,
            opt_str_view(cmd),
            term_cols as nat,
        ) + max_rows + 700 <= usize::MAX,
    ensures
        line_views(out.0@) == render_lines_spec(
            *lang,
            opt_str_view(reasoning),
            reasoning_expanded,
            answer@,
            opt_str_view(cmd),
            term_cols as nat,
            max_rows as nat,
        ),
        out.1 == render_rows_spec(
            *lang,
            opt_str_view(reasoning),
            reasoning_expanded,
            answer@,
            opt_str_view(cmd),
            term_cols as nat,
            max_rows as nat,
        ),
{
    let ghost rv = opt_str_view(reasoning);
    let ghost cv = opt_str_view(cmd);
    let ghost cols_n = term_cols as nat;

    let norm_answer = normalize_to_single_line(answer);
    let aprompt = t(lang, MessageKey::PromptAssistant);
    let mut avisible = String::from_str(aprompt);
    avisible.append(norm_answer.as_str());
    proof {
        assert(avisible@ == assistant_line(*lang, answer@));
    }
    let a_rows = wrap_rows(avisible.as_str(), term_cols);

    let candidate: Option<(String, usize)> = match cmd {
        Some(c) => {
            let nc = normalize_to_single_line(c);
            if nc.as_str().unicode_len() == 0 {
                None
            } else {
                let cprompt = t(lang, MessageKey::PromptCandidate);
                let mut cvisible = String::from_str(cprompt);
                cvisible.append(nc.as_str());
                proof {
                    assert(cvisible@ == candidate_line(*lang, c@));
                }
                let cr = wrap_rows(cvisible.as_str(), term_cols);
                Some((cvisible, cr))
            }
        },
        None => None,
    };
    let c_rows: usize = match &candidate {
        Some(p) => p.1,
        None => 0,
    };
    proof {
        assert(c_rows == candidate_rows(*lang, cv, cols_n));
    }

    let mut out_lines: Vec<RenderLine> = Vec::new();
    let mut used: usize = 0;
    proof {
        assert(line_views(out_lines@) =~~= Seq::<(Seq<char>, bool, bool)>::empty());
    }

    match reasoning {
        None => {},
        Some(rsn) => {
            proof {
                lemma_msg_rows_bound(*lang, MessageKey::HintToggleReasoning, cols_n);
                lemma_msg_rows_bound(*lang, MessageKey::ReasoningStart, cols_n);
                lemma_msg_rows_bound(*lang, MessageKey::ReasoningEnd, cols_n);
                lemma_msg_rows_bound(*lang, MessageKey::ReasoningTruncated, cols_n);
                lemma_message_width_bound(*lang, MessageKey::HintToggleReasoning);
                lemma_message_width_bound(*lang, MessageKey::ReasoningStart);
                lemma_message_width_bound(*lang, MessageKey::ReasoningEnd);
                lemma_message_width_bound(*lang, MessageKey::ReasoningTruncated);
            }
            if !reasoning_expanded {
                let hint = t(lang, MessageKey::HintToggleReasoning);
                let hint_rows = wrap_rows(hint, term_cols);
                out_lines.push(
                    RenderLine { text: String::from_str(hint), dim: true, clear_first: false },
                );
                used = used + hint_rows;
                proof {
                    assert(line_views(out_lines@) =~~= seq![
                        (message(*lang, MessageKey::HintToggleReasoning), true, false),
                    ]);
                }
            } else {
                let start_msg = t(lang, MessageKey::ReasoningStart);
                let end_msg = t(lang, MessageKey::ReasoningEnd);
                let trunc_msg = t(lang, MessageKey::ReasoningTruncated);
                let start_rows = wrap_rows(start_msg, term_cols);
                let end_rows = wrap_rows(end_msg, term_cols);
                let trunc_rows = wrap_rows(trunc_msg, term_cols);
                let reserved = a_rows + c_rows + start_rows + end_rows;
                if reserved >= max_rows {
                    let hint = t(lang, MessageKey::HintToggleReasoning);
                    let hint_rows = wrap_rows(hint, term_cols);
                    out_lines.push(
                        RenderLine { text: String::from_str(hint), dim: true, clear_first: false },
                    );
                    used = used + hint_rows;
                    proof {
                        assert(line_views(out_lines@) =~~= seq![
                            (message(*lang, MessageKey::HintToggleReasoning), true, false),
                        ]);
                    }
                } else {
                    let budget = max_rows - reserved;
                    proof {
                        assert(rv == Some(rsn@));
                        assert(lines_fit(rsn@, cols_n));
                    }
                    let total = reasoning_content_rows(rsn, term_cols);
                    let show_trunc = total > budget;
                    let budget2 = if show_trunc {
                        if trunc_rows >= budget {
                            0
                        } else {
                            budget - trunc_rows
                        }
                    } else {
                        budget
                    };
                    let ghost startl = seq![
                        (message(*lang, MessageKey::ReasoningStart), true, false),
                    ];
                    let ghost truncl = (if show_trunc {
                        seq![(message(*lang, MessageKey::ReasoningTruncated), true, false)]
                    } else {
                        Seq::<(Seq<char>, bool, bool)>::empty()
                    });
                    let ghost endl = seq![(message(*lang, MessageKey::ReasoningEnd), true, false)];
                    out_lines.push(
                        RenderLine {
                            text: String::from_str(start_msg),
                            dim: true,
                            clear_first: false,
                        },
                    );
                    used = used + start_rows;
                    proof {
                        assert(line_views(out_lines@) =~~= startl);
                    }
                    if show_trunc {
                        out_lines.push(
                            RenderLine {
                                text: String::from_str(trunc_msg),
                                dim: true,
                                clear_first: false,
                            },
                        );
                        used = used + trunc_rows;
                    }
                    proof {
                        assert(line_views(out_lines@) =~~= startl + truncl);
                    }
                    let cs = chars_vec(rsn);
                    let lines_v = split_lines_chars(&cs);
                    proof {
                        assert(budget2 * term_cols <= max_rows * term_cols) by (nonlinear_arith)
                            requires
                                0 <= budget2 <= max_rows,
                                term_cols >= 0,
                        ;
                        assert(lines_fit(rsn@, cols_n));
                        assert forall|k: int| 0 <= k < lines_v@.len() implies display_width(
                            lines_v.deep_view()[k],
                        ) + term_cols <= usize::MAX by {
                            assert(lines_v.deep_view()[k] == split_lines(rsn@)[k]);
                        }
                    }
                    let picked = select_tail_exec(&lines_v, lines_v.len(), budget2, term_cols);
                    let sel_lines = picked.0;
                    let sel_rows = picked.1;
                    let ghost sel = select_tail(split_lines(rsn@), budget2 as nat, cols_n);
                    proof {
                        assert(lines_v.deep_view().take(lines_v@.len() as int) =~~= split_lines(
                            rsn@,
                        ));
                        lemma_select_tail_rows(split_lines(rsn@), budget2 as nat, cols_n);
                    }
                    let ghost before_sel = line_views(out_lines@);
                    let mut k: usize = 0;
                    proof {
                        assert(line_views(out_lines@) =~~= before_sel + seg_plain(
                            sel.lines.take(0),
                        ));
                    }
                    while k < sel_lines.len()
                        invariant
                            k <= sel_lines@.len(),
                            sel_lines.deep_view() == sel.lines,
                            line_views(out_lines@) == before_sel + seg_plain(
                                sel.lines.take(k as int),
                            ),
                        decreases sel_lines@.len() - k,
                    {
                        proof {
                            assert(sel_lines.deep_view()[k as int] == sel_lines@[k as int]@);
                        }
                        let text = string_from_chars(&sel_lines[k]);
                        let ghost prev = line_views(out_lines@);
                        out_lines.push(RenderLine { text, dim: false, clear_first: false });
                        proof {
                            assert(line_views(out_lines@) =~~= prev.push(
                                (sel.lines[k as int], false, false),
                            ));
                            assert(line_views(out_lines@) =~~= before_sel + seg_plain(
                                sel.lines.take(k + 1),
                            ));
                        }
                        k = k + 1;
                    }
                    proof {
                        assert(sel.lines.take(sel.lines.len() as int) =~~= sel.lines);
                    }
                    used = used + sel_rows;
                    let ghost before_end = line_views(out_lines@);
                    out_lines.push(
                        RenderLine { text: String::from_str(end_msg), dim: true, clear_first: false },
                    );
                    used = used + end_rows;
                    proof {
                        assert(line_views(out_lines@) =~~= before_end + endl);
                        assert(line_views(out_lines@) =~~= startl + truncl + seg_plain(sel.lines)
                            + endl);
                    }
                }
            }
        },
    }

    let ghost before_tail = line_views(out_lines@);
    out_lines.push(RenderLine { text: avisible, dim: false, clear_first: false });
    proof {
        assert(line_views(out_lines@) =~~= before_tail + seq![
            (assistant_line(*lang, answer@), false, false),
        ]);
    }
    used = used + a_rows;
    match candidate {
        Some(p) => {
            let ghost before_cand = line_views(out_lines@);
            let ghost cline = p.0@;
            out_lines.push(RenderLine { text: p.0, dim: false, clear_first: true });
            used = used + p.1;
            proof {
                assert(line_views(out_lines@) =~~= before_cand + seq![(cline, false, true)]);
            }
        },
        None => {},
    }
    proof {
        let alines = seq![(assistant_line(*lang, answer@), false, false)];
        let clines = (match cv {
            Some(c) => if norm_spec(c).len() == 0 {
                Seq::<(Seq<char>, bool, bool)>::empty()
            } else {
                seq![(candidate_line(*lang, c), false, true)]
            },
            None => Seq::<(Seq<char>, bool, bool)>::empty(),
        });
        assert(line_views(out_lines@) =~~= before_tail + alines + clines);
        assert(line_views(out_lines@) =~~= render_lines_spec(
            *lang,
            rv,
            reasoning_expanded,
            answer@,
            cv,
            cols_n,
            max_rows as nat,
        ));
    }
    (out_lines, used)
}

/// The reasoning trace a state holds, as a character sequence.
pub open spec fn reasoning_view(s: OverlayState) -> Option<Seq<char>> {
    match s.last_reasoning {
        Some(r) => Some(r@),
        None => None,
    }
}

/// The answer a state shows: empty before any reply.
pub open spec fn answer_view(s: OverlayState) -> Seq<char> {
    match s.last_answer {
        Some(a) => a@,
        None => Seq::empty(),
    }
}

/// The suggested command a state holds, as a character sequence.
pub open spec fn cmd_view(s: OverlayState) -> Option<Seq<char>> {
    match s.last_cmd {
        Some(c) => Some(c@),
        None => None,
    }
}

/// Rows a render of this state writes.
pub open spec fn state_render_rows(
    s: OverlayState,
    lang: Language,
    cols: nat,
    max_rows: nat,
) -> nat {
    render_rows_spec(
        lang,
        reasoning_view(s),
        s.reasoning_expanded,
        answer_view(s),
        cmd_view(s),
        cols,
        max_rows,
    )
}

impl OverlayState {
    /// The rows the next reply render needs, for reserving scroll space.
    pub fn needed_reply_rows(&self, lang: &Language, term_cols: usize) -> (r: usize)
        requires
            geometry_fits(
                *lang,
                reasoning_view(*self),
                answer_view(*self),
                cmd_view(*self),
                term_cols as nat,
            ),
            calc_rows_spec(
                *lang,
                reasoning_view(*self),
                self.reasoning_expanded,
                answer_view(*self),
                cmd_view(*self),
                term_cols as nat,
            ) <= usize::MAX,
        ensures
            r == calc_rows_spec(
                *lang,
                reasoning_view(*self),
                self.reasoning_expanded,
                answer_view(*self),
                cmd_view(*self),
                term_cols as nat,
            ),
    {
        let reasoning = match &self.last_reasoning {
            Some(s) => Some(s.as_str()),
            None => None,
        };
        let answer = match &self.last_answer {
            Some(a) => a.as_str(),
            None => "",
        };
        let cmd = match &self.last_cmd {
            Some(c) => Some(c.as_str()),
            None => None,
        };
        proof {
            reveal_strlit("");
            assert(("")@ =~= Seq::<char>::empty());
        }
        calculate_reply_rows(lang, reasoning, self.reasoning_expanded, answer, cmd, term_cols)
    }

    /// Renders the last reply and records exactly how many rows it wrote,
    /// so a later toggle can erase that many before redrawing.
    pub fn render_reply(&mut self, lang: &Language, term_cols: usize, max_rows: usize) -> (lines:
        Vec<RenderLine>)
        requires
            geometry_fits(
                *lang,
                reasoning_view(*old(self)),
                answer_view(*old(self)),
                cmd_view(*old(self)),
                term_cols as nat,
            ),
            (match old(self).last_reasoning {
                Some(rr) => lines_rows(split_lines(rr@), term_cols as nat) <= usize::MAX,
                None => true,
            }),
            max_rows <= 0xffff,
            max_rows * term_cols <= usize::MAX,
            assistant_rows(*lang, answer_view(*old(self)), term_cols as nat) + candidate_rows(
                *lang,
                cmd_view(*old(self)),
                term_cols as nat,
            ) + max_rows + 700 <= usize::MAX,
        ensures
            line_views(lines@) == render_lines_spec(
                *lang,
                reasoning_view(*old(self)),
                old(self).reasoning_expanded,
                answer_view(*old(self)),
                cmd_view(*old(self)),
                term_cols as nat,
                max_rows as nat,
            ),
            final(self).last_reply_rows == state_render_rows(
                *old(self),
                *lang,
                term_cols as nat,
                max_rows as nat,
            ),
            final(self).history == old(self).history,
            final(self).input == old(self).input,
            final(self).last_cmd == old(self).last_cmd,
            final(self).last_answer == old(self).last_answer,
            final(self).last_reasoning == old(self).last_reasoning,
            final(self).reasoning_expanded == old(self).reasoning_expanded,
    {
        let reasoning = match &self.last_reasoning {
            Some(s) => Some(s.as_str()),
            None => None,
        };
        let answer = match &self.last_answer {
            Some(a) => a.as_str(),
            None => "",
        };
        let cmd = match &self.last_cmd {
            Some(c) => Some(c.as_str()),
            None => None,
        };
        proof {
            reveal_strlit("");
            assert(("")@ =~= Seq::<char>::empty());
        }
        let rendered = render_reply_block(
            lang,
            reasoning,
            self.reasoning_expanded,
            answer,
            cmd,
            term_cols,
            max_rows,
        );
        self.last_reply_rows = rendered.1;
        rendered.0
    }
}

/// A rendered reply never writes more rows than the terminal is high,
/// provided the terminal has room for the collapsed form and for the block
/// markers beside the answer and candidate lines: expanded reasoning
/// content is trimmed to whatever height remains.
pub proof fn lemma_render_fits_height(
    lang: Language,
    reasoning: Option<Seq<char>>,
    expanded: bool,
    answer: Seq<char>,
    cmd: Option<Seq<char>>,
    cols: nat,
    max_rows: nat,
)
    requires
        msg_rows(lang, MessageKey::HintToggleReasoning, cols) + assistant_rows(lang, answer, cols)
            + candidate_rows(lang, cmd, cols) <= max_rows,
        msg_rows(lang, MessageKey::ReasoningStart, cols) + msg_rows(
            lang,
            MessageKey::ReasoningEnd,
            cols,
        ) + msg_rows(lang, MessageKey::ReasoningTruncated, cols) + assistant_rows(
            lang,
            answer,
            cols,
        ) + candidate_rows(lang, cmd, cols) <= max_rows,
    ensures
        render_rows_spec(lang, reasoning, expanded, answer, cmd, cols, max_rows) <= max_rows,
{
    let a = assistant_rows(lang, answer, cols);
    let c = candidate_rows(lang, cmd, cols);
    match reasoning {
        None => {},
        Some(rsn) => {
            if expanded {
                let start = msg_rows(lang, MessageKey::ReasoningStart, cols);
                let endr = msg_rows(lang, MessageKey::ReasoningEnd, cols);
                let reserved = a + c + start + endr;
                if reserved < max_rows {
                    let budget = (max_rows - reserved) as nat;
                    let lines = split_lines(rsn);
                    let total = lines_rows(lines, cols);
                    let trows = msg_rows(lang, MessageKey::ReasoningTruncated, cols);
                    let show_trunc = total > budget;
                    let budget2 = if show_trunc {
                        if trows >= budget {
                            0nat
                        } else {
                            (budget - trows) as nat
                        }
                    } else {
                        budget
                    };
                    lemma_select_tail_rows(lines, budget2, cols);
                }
            }
        },
    }
}

/// Toggling the reasoning view twice re-renders with the original row
/// count: flipping the expand flag and flipping it back leaves every field
/// the render depends on exactly as it was.
pub proof fn lemma_toggle_roundtrip_rows(
    a: OverlayState,
    b: OverlayState,
    c: OverlayState,
    lang: Language,
    cols: nat,
    max_rows: nat,
)
    requires
        toggled(a, b),
        toggled(b, c),
    ensures
        state_render_rows(c, lang, cols, max_rows) == state_render_rows(a, lang, cols, max_rows),
{
}

/// How many rows must be freed below the cursor before drawing: the needed
/// rows minus what is left between the cursor and the bottom of the screen,
/// one row being reserved for the input prompt.
pub open spec fn scroll_deficit_spec(needed: nat, term_rows: u16, cursor_row: u16) -> nat {
    let avail = if term_rows as int >= cursor_row as int + 1 {
        term_rows as int - cursor_row - 1
    } else {
        0
    };
    if needed > avail {
        (needed - avail) as nat
    } else {
        0
    }
}

/// The number of blank lines to print so the terminal scrolls just enough
/// to fit `needed_rows` below the cursor.
pub fn scroll_deficit(needed_rows: usize, term_rows: u16, cursor_row: u16) -> (r: usize)
    requires
        cursor_row < 0xffff,
    ensures
        r == scroll_deficit_spec(needed_rows as nat, term_rows, cursor_row),
{
    let below: u16 = if term_rows >= cursor_row + 1 {
        term_rows - (cursor_row + 1)
    } else {
        0
    };
    let avail = below as usize;
    if needed_rows > avail {
        needed_rows - avail
    } else {
        0
    }
}

/// Appends one streamed reasoning fragment to the preview accumulator,
/// flattening its line breaks to spaces.
pub fn preview_append(acc: &mut String, fragment: &str)
    ensures
        final(acc)@ == old(acc)@ + flatten_nl(fragment@),
{
    let cs = chars_vec(fragment);
    let ghost start = acc@;
    let mut i: usize = 0;
    proof {
        assert(acc@ =~= start + flatten_nl(fragment@.take(0)));
    }
    while i < cs.len()
        invariant
            i <= cs@.len(),
            cs@ == fragment@,
            acc@ == start + flatten_nl(fragment@.take(i as int)),
        decreases cs@.len() - i,
    {
        let c = cs[i];
        if c == '\n' || c == '\r' {
            push_char(acc, ' ');
        } else {
            push_char(acc, c);
        }
        proof {
            assert(acc@ =~= start + flatten_nl(fragment@.take(i + 1)));
        }
        i = i + 1;
    }
    proof {
        assert(fragment@.take(fragment@.len() as int) =~= fragment@);
    }
}

/// The width left for the preview tail: the terminal width less the
/// thinking-indicator width and one spare column.
pub open spec fn preview_budget(lang: Language, term_width: nat) -> nat {
    let pw = display_width(message(lang, MessageKey::ThinkingProcess));
    if term_width >= pw + 1 {
        (term_width - pw - 1) as nat
    } else {
        0
    }
}

/// The visible tail of the preview accumulator: at most one terminal row,
/// behind the thinking indicator.
pub fn preview_line(acc: &str, lang: &Language, term_width: usize) -> (r: String)
    ensures
        r@ == truncate_tail_spec(acc@, preview_budget(*lang, term_width as nat)),
{
    let prompt = t(lang, MessageKey::ThinkingProcess);
    proof {
        lemma_message_width_bound(*lang, MessageKey::ThinkingProcess);
    }
    let pw = approx_display_width(prompt);
    let budget = if term_width >= pw + 1 {
        term_width - pw - 1
    } else {
        0
    };
    truncate_tail_by_width(acc, budget)
}

/// The width left for the input display behind the user prompt.
pub open spec fn prompt_budget(lang: Language, term_cols: nat) -> nat {
    let pw = display_width(message(lang, MessageKey::PromptUser));
    if term_cols >= pw + 1 {
        (term_cols - pw - 1) as nat
    } else {
        0
    }
}

/// The prompt line as shown: the user prompt followed by the tail of the
/// typed input that fits in the remaining columns.
pub fn prompt_line(lang: &Language, buf: &str, term_cols: usize) -> (r: String)
    ensures
        r@ == message(*lang, MessageKey::PromptUser) + truncate_tail_spec(
            buf@,
            prompt_budget(*lang, term_cols as nat),
        ),
{
    let prompt = t(lang, MessageKey::PromptUser);
    proof {
        lemma_message_width_bound(*lang, MessageKey::PromptUser);
    }
    let pw = approx_display_width(prompt);
    let budget = if term_cols >= pw + 1 {
        term_cols - pw - 1
    } else {
        0
    };
    let display = truncate_tail_by_width(buf, budget);
    let mut r = String::from_str(prompt);
    r.append(display.as_str());
    r
}

} // verus!
