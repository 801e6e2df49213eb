//! Character-sequence utilities shared by the rest of the library:
//! conversion between strings and character vectors, whitespace trimming,
//! line splitting, substring search and replacement.

use vstd::prelude::*;
use vstd::string::StrSliceExecFns;

verus! {

/// Whether `c` counts as whitespace, exactly as `char::is_whitespace` decides it.
pub uninterp spec fn is_unicode_ws(c: char) -> bool;

/// Relies on `char::is_whitespace`: the Unicode `White_Space` property.
/// The documented members include space, tab, carriage return and line feed,
/// and no other ASCII printable character is whitespace.
#[verifier::external_body]
pub fn char_is_whitespace(c: char) -> (r: bool)
    ensures
        r == is_unicode_ws(c),
        c == ' ' || c == '\t' || c == '\n' || c == '\r' ==> r,
        0x21 <= c as u32 <= 0x7e ==> !r,
{
    c.is_whitespace()
}

/// Relies on `String::push`: appends exactly one character at the end.
#[verifier::external_body]
pub fn push_char(s: &mut String, c: char)
    ensures
        final(s)@ == old(s)@.push(c),
{
    s.push(c);
}

/// The characters of a string slice, in order.
pub fn chars_vec(s: &str) -> (r: Vec<char>)
    ensures
        r@ == s@,
{
    let n = s.unicode_len();
    let mut r: Vec<char> = Vec::new();
    let mut i: usize = 0;
    while i < n
        invariant
            n == s@.len(),
            i <= n,
            r@ == s@.take(i as int),
        decreases n - i,
    {
        let c = s.get_char(i);
        r.push(c);
        proof {
            assert(s@.take(i + 1) =~= s@.take(i as int).push(s@[i as int]));
        }
        i = i + 1;
    }
    proof {
        assert(s@.take(n as int) =~= s@);
    }
    r
}

/// A string holding exactly the given characters.
pub fn string_from_chars(v: &Vec<char>) -> (r: String)
    ensures
        r@ == v@,
{
    let mut r = String::new();
    let mut i: usize = 0;
    while i < v.len()
        invariant
            i <= v@.len(),
            r@ == v@.take(i as int),
        decreases v@.len() - i,
    {
        push_char(&mut r, v[i]);
        proof {
            assert(v@.take(i + 1) =~= v@.take(i as int).push(v@[i as int]));
        }
        i = i + 1;
    }
    proof {
        assert(v@.take(v@.len() as int) =~= v@);
    }
    r
}

/// Appends `src[from..to]` to `out`.
pub fn push_range<T: Copy>(out: &mut Vec<T>, src: &Vec<T>, from: usize, to: usize)
    requires
        from <= to <= src@.len(),
    ensures
        final(out)@ == old(out)@ + src@.subrange(from as int, to as int),
{
    proof {
        assert(out@ =~= old(out)@ + src@.subrange(from as int, from as int));
    }
    let mut i: usize = from;
    while i < to
        invariant
            from <= i <= to <= src@.len(),
            out@ == old(out)@ + src@.subrange(from as int, i as int),
        decreases to - i,
    {
        out.push(src[i]);
        proof {
            assert(src@.subrange(from as int, i + 1) =~= src@.subrange(
                from as int,
                i as int,
            ).push(src@[i as int]));
            assert(out@ =~= old(out)@ + src@.subrange(from as int, i + 1));
        }
        i = i + 1;
    }
}

/// The vector holding `src[from..to]`.
pub fn subvec<T: Copy>(src: &Vec<T>, from: usize, to: usize) -> (r: Vec<T>)
    requires
        from <= to <= src@.len(),
    ensures
        r@ == src@.subrange(from as int, to as int),
{
    let mut r: Vec<T> = Vec::new();
    push_range(&mut r, src, from, to);
    proof {
        assert(r@ =~= src@.subrange(from as int, to as int));
    }
    r
}

/// Appends all of `src` to `out`.
pub fn push_range_all<T: Copy>(out: &mut Vec<T>, src: &Vec<T>)
    ensures
        final(out)@ == old(out)@ + src@,
{
    push_range(out, src, 0, src.len());
    proof {
        assert(src@.subrange(0, src@.len() as int) =~= src@);
    }
}

/// `s` with trailing whitespace removed.
pub open spec fn trim_end_spec(s: Seq<char>) -> Seq<char>
    decreases s.len(),
{
    if s.len() > 0 && is_unicode_ws(s.last()) {
        trim_end_spec(s.drop_last())
    } else {
        s
    }
}

/// `s` with leading whitespace removed.
pub open spec fn trim_start_spec(s: Seq<char>) -> Seq<char>
    decreases s.len(),
{
    if s.len() > 0 && is_unicode_ws(s[0]) {
        trim_start_spec(s.skip(1))
    } else {
        s
    }
}

/// `s` with whitespace removed from both ends, as `str::trim` does.
pub open spec fn trim_spec(s: Seq<char>) -> Seq<char> {
    trim_start_spec(trim_end_spec(s))
}

/// The characters of `v` with trailing whitespace removed.
pub fn trim_end_chars(v: &Vec<char>) -> (r: Vec<char>)
    ensures
        r@ == trim_end_spec(v@),
{
    let mut k = v.len();
    proof {
        assert(v@.take(v@.len() as int) =~= v@);
    }
    while k > 0 && char_is_whitespace(v[k - 1])
        invariant
            k <= v@.len(),
            trim_end_spec(v@) == trim_end_spec(v@.take(k as int)),
        decreases k,
    {
        proof {
            assert(v@.take(k as int).last() == v@[k - 1]);
            assert(v@.take(k as int).drop_last() =~= v@.take(k - 1));
        }
        k = k - 1;
    }
    let r = subvec(v, 0, k);
    proof {
        assert(v@.take(k as int) =~= v@.subrange(0, k as int));
    }
    r
}

/// The characters of `v` with leading whitespace removed.
pub fn trim_start_chars(v: &Vec<char>) -> (r: Vec<char>)
    ensures
        r@ == trim_start_spec(v@),
{
    let n = v.len();
    let mut j: usize = 0;
    proof {
        assert(v@.skip(0) =~= v@);
    }
    while j < n && char_is_whitespace(v[j])
        invariant
            j <= n,
            n == v@.len(),
            trim_start_spec(v@) == trim_start_spec(v@.skip(j as int)),
        decreases n - j,
    {
        proof {
            assert(v@.skip(j as int)[0] == v@[j as int]);
            assert(v@.skip(j as int).skip(1) =~= v@.skip(j + 1));
        }
        j = j + 1;
    }
    let r = subvec(v, j, n);
    proof {
        assert(v@.skip(j as int) =~= v@.subrange(j as int, n as int));
    }
    r
}

/// The characters of `v` with whitespace removed from both ends.
pub fn trim_chars(v: &Vec<char>) -> (r: Vec<char>)
    ensures
        r@ == trim_spec(v@),
{
    let e = trim_end_chars(v);
    trim_start_chars(&e)
}

/// Index of the first occurrence of `c` in `s`.
pub open spec fn idx_of(s: Seq<char>, c: char) -> Option<int>
    decreases s.len(),
{
    if s.len() == 0 {
        None
    } else if s[0] == c {
        Some(0int)
    } else {
        match idx_of(s.skip(1), c) {
            None => None,
            Some(e) => Some(1 + e),
        }
    }
}

pub proof fn lemma_idx_of_bounds(s: Seq<char>, c: char)
    ensures
        match idx_of(s, c) {
            None => true,
            Some(e) => 0 <= e < s.len() && s[e] == c,
        },
    decreases s.len(),
{
    if s.len() > 0 && s[0] != c {
        lemma_idx_of_bounds(s.skip(1), c);
    }
}

/// First position of `c` in `v` at or after `from`, reported relative to `from`
/// through `idx_of` on the suffix.
pub fn find_char_from(v: &Vec<char>, from: usize, c: char) -> (r: Option<usize>)
    requires
        from <= v@.len(),
    ensures
        match idx_of(v@.skip(from as int), c) {
            None => r is None,
            Some(e) => r == Some((from + e) as usize),
        },
{
    let n = v.len();
    let mut j = from;
    while j < n
        invariant
            from <= j <= n,
            n == v@.len(),
            idx_of(v@.skip(from as int), c) == match idx_of(v@.skip(j as int), c) {
                None => None::<int>,
                Some(e) => Some(j - from + e),
            },
        decreases n - j,
    {
        if v[j] == c {
            proof {
                assert(v@.skip(j as int)[0] == v@[j as int]);
            }
            return Some(j);
        }
        proof {
            assert(v@.skip(j as int)[0] == v@[j as int]);
            assert(v@.skip(j as int).skip(1) =~= v@.skip(j + 1));
        }
        j = j + 1;
    }
    proof {
        assert(v@.skip(n as int).len() == 0);
    }
    None
}

/// Whether `pat` occurs in `s` starting at position `i`.
pub open spec fn match_at(s: Seq<char>, pat: Seq<char>, i: int) -> bool {
    0 <= i && i + pat.len() <= s.len() && s.subrange(i, i + pat.len()) == pat
}

/// Position of the leftmost occurrence of `pat` in `s`; an empty pattern
/// matches at the start, as `str::find` has it.
pub open spec fn find_sub(s: Seq<char>, pat: Seq<char>) -> Option<int>
    decreases s.len(),
{
    if pat.len() == 0 {
        Some(0int)
    } else if s.len() < pat.len() {
        None
    } else if s.take(pat.len() as int) == pat {
        Some(0int)
    } else {
        match find_sub(s.skip(1), pat) {
            None => None,
            Some(e) => Some(1 + e),
        }
    }
}

proof fn lemma_match_at_skip(s: Seq<char>, pat: Seq<char>, i: int)
    requires
        i >= 0,
        s.len() > 0,
    ensures
        match_at(s, pat, i + 1) == match_at(s.skip(1), pat, i),
{
    assert(s.skip(1).len() == s.len() - 1);
    if i + 1 + pat.len() <= s.len() {
        assert(s.subrange(i + 1, i + 1 + pat.len()) =~= s.skip(1).subrange(i, i + pat.len()));
    }
}

/// `find_sub` returns the leftmost match.
pub proof fn lemma_find_sub_char(s: Seq<char>, pat: Seq<char>)
    ensures
        match find_sub(s, pat) {
            None => forall|i: int| !match_at(s, pat, i),
            Some(e) => match_at(s, pat, e) && forall|i: int| 0 <= i < e ==> !match_at(s, pat, i),
        },
    decreases s.len(),
{
    if pat.len() == 0 {
        assert(s.subrange(0, 0) =~= pat);
        assert(match_at(s, pat, 0));
    } else if s.len() < pat.len() {
        assert forall|i: int| !match_at(s, pat, i) by {}
    } else if s.take(pat.len() as int) == pat {
        assert(s.subrange(0, pat.len() as int) =~= s.take(pat.len() as int));
        assert(match_at(s, pat, 0));
    } else {
        lemma_find_sub_char(s.skip(1), pat);
        assert(!match_at(s, pat, 0)) by {
            assert(s.subrange(0, pat.len() as int) =~= s.take(pat.len() as int));
        }
        match find_sub(s.skip(1), pat) {
            None => {
                assert forall|i: int| !match_at(s, pat, i) by {
                    if i > 0 {
                        assert(!match_at(s.skip(1), pat, i - 1));
                        lemma_match_at_skip(s, pat, i - 1);
                    }
                }
            },
            Some(e) => {
                lemma_match_at_skip(s, pat, e);
                assert(match_at(s, pat, 1 + e));
                assert forall|i: int| 0 <= i < 1 + e implies !match_at(s, pat, i) by {
                    if i > 0 {
                        assert(!match_at(s.skip(1), pat, i - 1));
                        lemma_match_at_skip(s, pat, i - 1);
                    }
                }
            },
        }
    }
}

pub proof fn lemma_find_sub_bounds(s: Seq<char>, pat: Seq<char>)
    ensures
        match find_sub(s, pat) {
            None => true,
            Some(e) => 0 <= e && e + pat.len() <= s.len(),
        },
    decreases s.len(),
{
    if pat.len() > 0 && s.len() >= pat.len() && s.take(pat.len() as int) != pat {
        lemma_find_sub_bounds(s.skip(1), pat);
    }
}

/// Leftmost occurrence of `pat` in `v` at or after `from`, reported through
/// `find_sub` on the suffix.
pub fn find_sub_from(v: &Vec<char>, pat: &Vec<char>, from: usize) -> (r: Option<usize>)
    requires
        from <= v@.len(),
    ensures
        match find_sub(v@.skip(from as int), pat@) {
            None => r is None,
            Some(e) => r == Some((from + e) as usize),
        },
{
    let n = v.len();
    let m = pat.len();
    proof {
        lemma_find_sub_char(v@.skip(from as int), pat@);
        lemma_find_sub_bounds(v@.skip(from as int), pat@);
    }
    if m == 0 {
        return Some(from);
    }
    if m > n || from > n - m {
        proof {
            let s = v@.skip(from as int);
            match find_sub(s, pat@) {
                None => {},
                Some(e) => {
                    assert(match_at(s, pat@, e));
                    assert(false);
                },
            }
        }
        return None;
    }
    let mut i = from;
    while i <= n - m
        invariant
            from <= i,
            i <= n - m + 1,
            m >= 1,
            m <= n,
            n == v@.len(),
            m == pat@.len(),
            forall|k: int| 0 <= k < i - from ==> !match_at(v@.skip(from as int), pat@, k),
        decreases n - i,
    {
        let mut j: usize = 0;
        let mut all_eq = true;
        while j < m
            invariant
                i + m <= n,
                n == v@.len(),
                m == pat@.len(),
                j <= m,
                all_eq == (forall|q: int| 0 <= q < j ==> v@[i + q] == pat@[q]),
            decreases m - j,
        {
            if v[i + j] != pat[j] {
                all_eq = false;
                proof {
                    assert(v@[i + j] != pat@[j as int]);
                }
                j = m;
            } else {
                proof {
                    assert(v@[i + j] == pat@[j as int]);
                }
                j = j + 1;
            }
        }
        proof {
            let s = v@.skip(from as int);
            let k = i - from;
            if all_eq {
                assert(s.subrange(k, k + m) =~= pat@) by {
                    assert forall|q: int| 0 <= q < m implies s.subrange(k, k + m)[q] == pat@[q] by {
                        assert(s.subrange(k, k + m)[q] == v@[i + q]);
                    }
                }
                assert(match_at(s, pat@, k));
            } else {
                assert(!match_at(s, pat@, k)) by {
                    if match_at(s, pat@, k) {
                        let bad = choose|q: int| 0 <= q < m && v@[i + q] != pat@[q];
                        assert(s.subrange(k, k + m)[bad] == v@[i + bad]);
                    }
                }
            }
        }
        if all_eq {
            proof {
                lemma_find_sub_char(v@.skip(from as int), pat@);
                match find_sub(v@.skip(from as int), pat@) {
                    None => {
                        assert(match_at(v@.skip(from as int), pat@, i - from));
                        assert(false);
                    },
                    Some(e) => {
                        if e < i - from {
                            assert(!match_at(v@.skip(from as int), pat@, e));
                            assert(false);
                        }
                        if e > i - from {
                            assert(!match_at(v@.skip(from as int), pat@, i - from));
                            assert(false);
                        }
                    },
                }
            }
            return Some(i);
        }
        i = i + 1;
    }
    proof {
        let s = v@.skip(from as int);
        lemma_find_sub_char(s, pat@);
        match find_sub(s, pat@) {
            None => {},
            Some(e) => {
                assert(match_at(s, pat@, e));
                assert(e + m <= s.len());
                assert(e < i - from);
                assert(!match_at(s, pat@, e));
                assert(false);
            },
        }
    }
    None
}

/// `s` with every occurrence of `pat` replaced by `val`, leftmost first and
/// without overlap, as `str::replace` does; an empty pattern replaces nothing.
pub open spec fn replace_all(s: Seq<char>, pat: Seq<char>, val: Seq<char>) -> Seq<char>
    decreases s.len(),
{
    if pat.len() == 0 {
        s
    } else {
        match find_sub(s, pat) {
            None => s,
            Some(i) => {
                if 0 <= i && i + pat.len() <= s.len() {
                    s.take(i) + val + replace_all(s.skip(i + pat.len()), pat, val)
                } else {
                    s
                }
            },
        }
    }
}

/// The characters of `v` with every occurrence of `pat` replaced by `val`.
pub fn replace_chars(v: &Vec<char>, pat: &Vec<char>, val: &Vec<char>) -> (r: Vec<char>)
    ensures
        r@ == replace_all(v@, pat@, val@),
{
    let n = v.len();
    let m = pat.len();
    if m == 0 {
        let r = subvec(v, 0, n);
        proof {
            assert(v@.subrange(0, n as int) =~= v@);
        }
        return r;
    }
    let mut out: Vec<char> = Vec::new();
    let mut p: usize = 0;
    proof {
        assert(v@.skip(0) =~= v@);
        assert(out@ + replace_all(v@, pat@, val@) =~= replace_all(v@, pat@, val@));
    }
    loop
        invariant
            p <= n,
            n == v@.len(),
            m == pat@.len(),
            m >= 1,
            replace_all(v@, pat@, val@) == out@ + replace_all(v@.skip(p as int), pat@, val@),
        decreases n - p,
    {
        let ghost s = v@.skip(p as int);
        proof {
            lemma_find_sub_bounds(s, pat@);
        }
        match find_sub_from(v, pat, p) {
            Some(q) => {
                let ghost prev = out@;
                proof {
                    let i = q - p;
                    assert(s.take(i) =~= v@.subrange(p as int, q as int));
                    assert(s.skip(i + m) =~= v@.skip(q + m));
                }
                push_range(&mut out, v, p, q);
                push_range_all(&mut out, val);
                proof {
                    let i = q - p;
                    assert(out@ =~= prev + s.take(i) + val@);
                    assert(out@ + replace_all(v@.skip(q + m), pat@, val@) =~= prev + (s.take(i)
                        + val@ + replace_all(s.skip(i + m), pat@, val@)));
                }
                p = q + m;
            },
            None => {
                let ghost prev = out@;
                push_range(&mut out, v, p, n);
                proof {
                    assert(replace_all(s, pat@, val@) == s);
                    assert(s =~= v@.subrange(p as int, n as int));
                    assert(out@ =~= prev + s);
                }
                return out;
            },
        }
    }
}

/// The lines of `s`, split as `str::lines` splits them: at each line feed,
/// with a carriage return directly before the line feed dropped, and without
/// a final empty line after a trailing line feed.
pub open spec fn split_lines(s: Seq<char>) -> Seq<Seq<char>>
    decreases s.len(),
{
    if s.len() == 0 {
        Seq::empty()
    } else {
        match idx_of(s, '\n') {
            None => seq![s],
            Some(i) => {
                if 0 <= i < s.len() {
                    let line = if i > 0 && s[i - 1] == '\r' {
                        s.take(i - 1)
                    } else {
                        s.take(i)
                    };
                    seq![line] + split_lines(s.skip(i + 1))
                } else {
                    seq![s]
                }
            },
        }
    }
}

/// The lines of `v`, each as its own character vector.
pub fn split_lines_chars(v: &Vec<char>) -> (r: Vec<Vec<char>>)
    ensures
        r.deep_view() == split_lines(v@),
{
    let n = v.len();
    let mut out: Vec<Vec<char>> = Vec::new();
    let mut p: usize = 0;
    proof {
        assert(v@.skip(0) =~= v@);
        assert(out.deep_view() + split_lines(v@) =~~= split_lines(v@));
    }
    loop
        invariant
            p <= n,
            n == v@.len(),
            split_lines(v@) == out.deep_view() + split_lines(v@.skip(p as int)),
        decreases n - p,
    {
        if p == n {
            proof {
                assert(v@.skip(n as int).len() == 0);
                assert(out.deep_view() + split_lines(v@.skip(p as int)) =~~= out.deep_view());
            }
            return out;
        }
        let ghost s = v@.skip(p as int);
        proof {
            lemma_idx_of_bounds(s, '\n');
        }
        match find_char_from(v, p, '\n') {
            Some(q) => {
                let line = if q > p && v[q - 1] == '\r' {
                    subvec(v, p, q - 1)
                } else {
                    subvec(v, p, q)
                };
                proof {
                    let i = q - p;
                    if i > 0 {
                        assert(s[i - 1] == v@[q - 1]);
                        assert(s.take(i - 1) =~= v@.subrange(p as int, q - 1));
                    }
                    assert(s.take(i) =~= v@.subrange(p as int, q as int));
                    assert(s.skip(i + 1) =~= v@.skip(q + 1));
                }
                let ghost prev = out.deep_view();
                let ghost lview = line@;
                out.push(line);
                proof {
                    let i = q - p;
                    let sline = if i > 0 && s[i - 1] == '\r' {
                        s.take(i - 1)
                    } else {
                        s.take(i)
                    };
                    assert(lview == sline);
                    assert(out.deep_view() =~~= prev + seq![sline]);
                    assert(out.deep_view() + split_lines(v@.skip(q + 1)) =~~= prev + (seq![sline]
                        + split_lines(s.skip(i + 1))));
                }
                p = q + 1;
            },
            None => {
                let line = subvec(v, p, n);
                proof {
                    assert(s =~= v@.subrange(p as int, n as int));
                }
                let ghost prev = out.deep_view();
                out.push(line);
                proof {
                    assert(split_lines(s) == seq![s]);
                    assert(out.deep_view() =~~= prev + seq![s]);
                    assert(v@.skip(n as int).len() == 0);
                    assert(out.deep_view() + split_lines(v@.skip(n as int)) =~~= out.deep_view());
                }
                return out;
            },
        }
    }
}

} // verus!
