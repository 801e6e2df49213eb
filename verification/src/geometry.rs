//! Display-width estimation, row-wrap counting and width-bounded tail
//! truncation for terminal rendering.
//!
//! Widths use a fixed heuristic: ASCII control characters have width 0,
//! other ASCII characters width 1, and everything else width 2.

use vstd::prelude::*;
use crate::text::{chars_vec, string_from_chars, subvec, trim_chars, trim_spec};

verus! {

/// Estimated terminal-column width of one character.
pub open spec fn char_width(c: char) -> nat {
    if c as u32 <= 0x1f || c as u32 == 0x7f {
        0
    } else if c as u32 <= 0x7f {
        1
    } else {
        2
    }
}

/// Estimated terminal-column width of a sequence of characters.
pub open spec fn display_width(s: Seq<char>) -> nat
    decreases s.len(),
{
    if s.len() == 0 {
        0
    } else {
        char_width(s[0]) + display_width(s.skip(1))
    }
}

/// Display width of a single character.
pub proof fn lemma_display_width_single(c: char)
    ensures
        display_width(seq![c]) == char_width(c),
{
    let s = seq![c];
    assert(s[0] == c);
    assert(s.skip(1).len() == 0);
    assert(display_width(s.skip(1)) == 0);
}

/// No character is wider than two columns.
pub proof fn lemma_display_width_le(s: Seq<char>)
    ensures
        display_width(s) <= 2 * s.len(),
    decreases s.len(),
{
    if s.len() > 0 {
        lemma_display_width_le(s.skip(1));
    }
}

/// Display width distributes over concatenation.
pub proof fn lemma_display_width_append(a: Seq<char>, b: Seq<char>)
    ensures
        display_width(a + b) == display_width(a) + display_width(b),
    decreases a.len(),
{
    if a.len() == 0 {
        assert(a + b =~= b);
    } else {
        assert((a + b)[0] == a[0]);
        assert((a + b).skip(1) =~= a.skip(1) + b);
        lemma_display_width_append(a.skip(1), b);
    }
}

/// Width of one character under the fixed heuristic.
pub fn approx_char_width(c: char) -> (w: usize)
    ensures
        w == char_width(c),
{
    let u = c as u32;
    if u <= 0x1f || u == 0x7f {
        0
    } else if u <= 0x7f {
        1
    } else {
        2
    }
}

/// Width of a character vector.
pub fn display_width_chars(v: &Vec<char>) -> (w: usize)
    requires
        display_width(v@) <= usize::MAX,
    ensures
        w == display_width(v@),
{
    let mut w: usize = 0;
    let mut i: usize = 0;
    proof {
        assert(v@.take(0).len() == 0);
    }
    while i < v.len()
        invariant
            i <= v@.len(),
            w == display_width(v@.take(i as int)),
            display_width(v@) <= usize::MAX,
        decreases v@.len() - i,
    {
        proof {
            assert(v@.take(i + 1) =~= v@.take(i as int) + seq![v@[i as int]]);
            lemma_display_width_append(v@.take(i as int), seq![v@[i as int]]);
            lemma_display_width_single(v@[i as int]);
            assert(v@.take(i + 1) + v@.skip(i + 1) =~= v@);
            lemma_display_width_append(v@.take(i + 1), v@.skip(i + 1));
        }
        w = w + approx_char_width(v[i]);
        i = i + 1;
    }
    proof {
        assert(v@.take(v@.len() as int) =~= v@);
    }
    w
}

/// Estimated display width of a string.
pub fn approx_display_width(s: &str) -> (w: usize)
    requires
        display_width(s@) <= usize::MAX,
    ensures
        w == display_width(s@),
{
    let v = chars_vec(s);
    display_width_chars(&v)
}

/// Number of terminal rows a visible text of width `w` occupies when wrapped
/// at `cols` columns; zero columns count as one row, and so does empty text.
pub open spec fn wrap_rows_spec(w: nat, cols: nat) -> nat {
    if cols == 0 {
        1
    } else {
        ((((if w == 0 {
            1int
        } else {
            w as int
        }) + cols - 1) / (cols as int)) as nat)
    }
}

/// Number of terminal rows the text occupies when wrapped at `cols` columns.
pub fn wrap_rows(visible: &str, cols: usize) -> (r: usize)
    requires
        display_width(visible@) + cols <= usize::MAX,
    ensures
        r == wrap_rows_spec(display_width(visible@), cols as nat),
{
    if cols == 0 {
        return 1;
    }
    let width = approx_display_width(visible);
    let w1 = if width == 0 {
        1
    } else {
        width
    };
    ((w1 - 1) + cols) / cols
}

/// Row count for an already-converted character vector.
pub fn wrap_rows_chars(v: &Vec<char>, cols: usize) -> (r: usize)
    requires
        display_width(v@) + cols <= usize::MAX,
    ensures
        r == wrap_rows_spec(display_width(v@), cols as nat),
{
    if cols == 0 {
        return 1;
    }
    let width = display_width_chars(v);
    let w1 = if width == 0 {
        1
    } else {
        width
    };
    ((w1 - 1) + cols) / cols
}

/// For positive `cols` and non-empty width, the row count is exactly the
/// ceiling of width over columns: the smallest row count whose total
/// capacity covers the width.
pub proof fn lemma_wrap_rows_is_ceiling(w: nat, cols: nat)
    requires
        cols >= 1,
        w >= 1,
    ensures
        wrap_rows_spec(w, cols) * cols >= w,
        (wrap_rows_spec(w, cols) - 1) * cols < w,
{
    let r = ((w + cols - 1) as int) / (cols as int);
    assert(r * cols >= w && (r - 1) * cols < w) by (nonlinear_arith)
        requires
            cols >= 1,
            w >= 1,
            r == ((w + cols - 1) as int) / (cols as int),
    ;
}

/// Zero columns always count as a single row.
pub proof fn lemma_wrap_rows_zero_cols(w: nat)
    ensures
        wrap_rows_spec(w, 0) == 1,
{
}

/// Empty text still occupies one row, whatever the column count.
pub proof fn lemma_wrap_rows_empty(cols: nat)
    ensures
        wrap_rows_spec(0, cols) == 1,
{
    if cols >= 1 {
        assert((cols as int) / (cols as int) == 1) by (nonlinear_arith)
            requires
                cols >= 1,
        ;
    }
}

/// The first index whose suffix fits in `maxw` columns.
pub open spec fn trunc_start(s: Seq<char>, maxw: nat) -> int
    decreases s.len(),
{
    if s.len() == 0 {
        0
    } else if display_width(s) <= maxw {
        0
    } else {
        1 + trunc_start(s.skip(1), maxw)
    }
}

/// The longest suffix of `s` whose display width does not exceed `maxw`;
/// a zero budget yields the empty text.
pub open spec fn truncate_tail_spec(s: Seq<char>, maxw: nat) -> Seq<char> {
    if maxw == 0 {
        Seq::empty()
    } else {
        s.skip(trunc_start(s, maxw))
    }
}

proof fn lemma_trunc_start_bounds(s: Seq<char>, maxw: nat)
    ensures
        0 <= trunc_start(s, maxw) <= s.len(),
        display_width(s.skip(trunc_start(s, maxw))) <= maxw,
    decreases s.len(),
{
    if s.len() == 0 {
        assert(s.skip(0) =~= s);
    } else if display_width(s) <= maxw {
        assert(s.skip(0) =~= s);
    } else {
        lemma_trunc_start_bounds(s.skip(1), maxw);
        let t = trunc_start(s.skip(1), maxw);
        assert(s.skip(1 + t) =~= s.skip(1).skip(t));
    }
}

proof fn lemma_trunc_start_minimal(s: Seq<char>, maxw: nat, k: int)
    requires
        0 <= k < trunc_start(s, maxw),
    ensures
        display_width(s.skip(k)) > maxw,
    decreases s.len(),
{
    lemma_trunc_start_bounds(s, maxw);
    if k == 0 {
        assert(s.skip(0) =~= s);
    } else {
        lemma_trunc_start_bounds(s.skip(1), maxw);
        lemma_trunc_start_minimal(s.skip(1), maxw, k - 1);
        assert(s.skip(1).skip(k - 1) =~= s.skip(k));
    }
}

proof fn lemma_width_skip_mono(s: Seq<char>, j: int, k: int)
    requires
        0 <= j <= k <= s.len(),
    ensures
        display_width(s.skip(j)) >= display_width(s.skip(k)),
{
    assert(s.skip(j) =~= s.subrange(j, k) + s.skip(k));
    lemma_display_width_append(s.subrange(j, k), s.skip(k));
}

proof fn lemma_trunc_start_char(s: Seq<char>, maxw: nat, k: int)
    requires
        0 <= k <= s.len(),
        display_width(s.skip(k)) <= maxw,
        k == 0 || display_width(s.skip(k - 1)) > maxw,
    ensures
        trunc_start(s, maxw) == k,
{
    lemma_trunc_start_bounds(s, maxw);
    let t = trunc_start(s, maxw);
    if t < k {
        lemma_width_skip_mono(s, t, k - 1);
        assert(display_width(s.skip(k - 1)) <= display_width(s.skip(t)));
    }
    if t > k {
        lemma_trunc_start_minimal(s, maxw, k);
    }
}

/// The longest suffix of the text whose display width does not exceed
/// `max_width`, dropping whole leading characters; a zero budget yields
/// the empty string.
pub fn truncate_tail_by_width(s: &str, max_width: usize) -> (r: String)
    ensures
        r@ == truncate_tail_spec(s@, max_width as nat),
{
    let cs = chars_vec(s);
    let tail = truncate_tail_chars(&cs, max_width);
    string_from_chars(&tail)
}

/// The longest suffix of the characters whose display width does not exceed
/// `max_width`, as a character vector.
pub fn truncate_tail_chars(cs: &Vec<char>, max_width: usize) -> (r: Vec<char>)
    ensures
        r@ == truncate_tail_spec(cs@, max_width as nat),
{
    if max_width == 0 {
        return Vec::new();
    }
    let n = cs.len();
    let mut k = n;
    let mut width: usize = 0;
    proof {
        assert(cs@.skip(n as int).len() == 0);
    }
    while k > 0
        invariant
            k <= n,
            n == cs@.len(),
            width == display_width(cs@.skip(k as int)),
            width <= max_width,
        ensures
            k <= n,
            width == display_width(cs@.skip(k as int)),
            width <= max_width,
            k == 0 || display_width(cs@.skip(k - 1)) > max_width,
        decreases k,
    {
        let cw = approx_char_width(cs[k - 1]);
        proof {
            assert(cs@.skip(k - 1)[0] == cs@[k - 1]);
            assert(cs@.skip(k - 1).skip(1) =~= cs@.skip(k as int));
        }
        if cw > max_width - width {
            break;
        }
        width = width + cw;
        k = k - 1;
    }
    proof {
        lemma_trunc_start_char(cs@, max_width as nat, k as int);
    }
    let tail = subvec(cs, k, n);
    proof {
        assert(cs@.subrange(k as int, n as int) =~= cs@.skip(k as int));
    }
    tail
}

/// The truncated tail never exceeds the budget, and for a positive budget it
/// is the longest such suffix: any suffix that fits is no longer than it.
pub proof fn lemma_truncate_tail_sound(s: Seq<char>, maxw: nat)
    ensures
        display_width(truncate_tail_spec(s, maxw)) <= maxw,
        maxw >= 1 ==> forall|k: int|
            0 <= k <= s.len() && display_width(s.skip(k)) <= maxw ==> truncate_tail_spec(
                s,
                maxw,
            ).len() >= s.len() - k,
{
    if maxw == 0 {
    } else {
        lemma_trunc_start_bounds(s, maxw);
        assert forall|k: int|
            0 <= k <= s.len() && display_width(s.skip(k)) <= maxw implies truncate_tail_spec(
            s,
            maxw,
        ).len() >= s.len() - k by {
            if k < trunc_start(s, maxw) {
                lemma_trunc_start_minimal(s, maxw, k);
            }
        }
    }
}

/// `s` with every line break flattened to a space.
pub open spec fn flatten_nl(s: Seq<char>) -> Seq<char> {
    s.map_values(
        |c: char|
            if c == '\n' || c == '\r' {
                ' '
            } else {
                c
            },
    )
}

/// `s` flattened to one line and trimmed, as the overlay shows it.
pub open spec fn norm_spec(s: Seq<char>) -> Seq<char> {
    trim_spec(flatten_nl(s))
}

/// The text with embedded line breaks replaced by spaces and surrounding
/// whitespace removed.
pub fn normalize_to_single_line(s: &str) -> (r: String)
    ensures
        r@ == norm_spec(s@),
{
    let cs = chars_vec(s);
    let mut flat: Vec<char> = Vec::new();
    let mut i: usize = 0;
    proof {
        assert(flat@ =~= flatten_nl(s@.take(0)));
    }
    while i < cs.len()
        invariant
            i <= cs@.len(),
            cs@ == s@,
            flat@ == flatten_nl(s@.take(i as int)),
        decreases cs@.len() - i,
    {
        let c = cs[i];
        if c == '\n' || c == '\r' {
            flat.push(' ');
        } else {
            flat.push(c);
        }
        proof {
            assert(flat@ =~= flatten_nl(s@.take(i + 1)));
        }
        i = i + 1;
    }
    proof {
        assert(s@.take(cs@.len() as int) =~= s@);
    }
    let trimmed = trim_chars(&flat);
    string_from_chars(&trimmed)
}

} // verus!
