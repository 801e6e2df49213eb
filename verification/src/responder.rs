//! Escape-sequence interception for the pseudo-terminal relay.
//!
//! The responder scans the child's output stream, which arrives in chunks of
//! arbitrary size, for terminal control sequences.  Recognized query
//! sequences (cursor position report, device status, primary device
//! attributes) are answered and removed from the stream; every other
//! sequence passes through unchanged.  An incomplete sequence at the end of
//! a chunk is kept until the next chunk completes it.

use vstd::prelude::*;
use crate::text::{push_range, subvec};

verus! {

/// A query sequence the responder answers on behalf of the terminal.
pub enum TermQuery {
    /// `ESC [ 6 n`: report the cursor position.
    CursorPos,
    /// `ESC [ 5 n`: report device status.
    DeviceStatus,
    /// `ESC [ c`: report primary device attributes.
    DeviceAttrs,
}

/// What one pass over a byte stream produces: the bytes passed through, the
/// queries recognized (in order), and how many leading bytes were consumed.
pub ghost struct ScanOut {
    pub filtered: Seq<u8>,
    pub queries: Seq<TermQuery>,
    pub consumed: int,
}

/// The bytes of `ESC [ 6 n`.
pub open spec fn q_cursor() -> Seq<u8> {
    seq![0x1bu8, 0x5bu8, 0x36u8, 0x6eu8]
}

/// The bytes of `ESC [ 5 n`.
pub open spec fn q_status() -> Seq<u8> {
    seq![0x1bu8, 0x5bu8, 0x35u8, 0x6eu8]
}

/// The bytes of `ESC [ c`.
pub open spec fn q_attrs() -> Seq<u8> {
    seq![0x1bu8, 0x5bu8, 0x63u8]
}

/// The fixed answer to a device status query: `ESC [ 0 n`.
pub open spec fn resp_status() -> Seq<u8> {
    seq![0x1bu8, 0x5bu8, 0x30u8, 0x6eu8]
}

/// The fixed answer to a device attributes query: `ESC [ ? 1 ; 0 c`.
pub open spec fn resp_attrs() -> Seq<u8> {
    seq![0x1bu8, 0x5bu8, 0x3fu8, 0x31u8, 0x3bu8, 0x30u8, 0x63u8]
}

/// A CSI final byte, which terminates a `ESC [` sequence.
pub open spec fn is_csi_final(b: u8) -> bool {
    0x40 <= b <= 0x7e
}

/// Position of the first CSI final byte in `s`.
pub open spec fn csi_end(s: Seq<u8>) -> Option<nat>
    decreases s.len(),
{
    if s.len() == 0 {
        None
    } else if is_csi_final(s[0]) {
        Some(0nat)
    } else {
        match csi_end(s.skip(1)) {
            None => None,
            Some(e) => Some(1 + e),
        }
    }
}

/// Position of the byte that ends an OSC string: a BEL, or the backslash of
/// a two-byte `ESC \` string terminator.
pub open spec fn osc_end(s: Seq<u8>) -> Option<nat>
    decreases s.len(),
{
    if s.len() == 0 {
        None
    } else if s[0] == 0x07 {
        Some(0nat)
    } else if s[0] == 0x1b && s.len() >= 2 && s[1] == 0x5c {
        Some(1nat)
    } else {
        match osc_end(s.skip(1)) {
            None => None,
            Some(e) => Some(1 + e),
        }
    }
}

/// Position of the backslash of the first `ESC \` string terminator in `s`.
pub open spec fn st_end(s: Seq<u8>) -> Option<nat>
    decreases s.len(),
{
    if s.len() < 2 {
        None
    } else if s[0] == 0x1b && s[1] == 0x5c {
        Some(1nat)
    } else {
        match st_end(s.skip(1)) {
            None => None,
            Some(e) => Some(1 + e),
        }
    }
}

/// Position of the final byte of a bare escape sequence: the first byte that
/// is not an intermediate byte (0x20..0x2f).
pub open spec fn esc_fin(s: Seq<u8>) -> Option<nat>
    decreases s.len(),
{
    if s.len() == 0 {
        None
    } else if 0x20 <= s[0] <= 0x2f {
        match esc_fin(s.skip(1)) {
            None => None,
            Some(e) => Some(1 + e),
        }
    } else {
        Some(0nat)
    }
}

/// The remainder of `s` after its first `k` bytes; out-of-range counts
/// clear the whole sequence.
pub open spec fn rest_after(s: Seq<u8>, k: int) -> Seq<u8> {
    if 0 <= k <= s.len() {
        s.skip(k)
    } else {
        Seq::empty()
    }
}

/// An empty pass: nothing filtered, nothing recognized, nothing consumed.
pub open spec fn scan_halt() -> ScanOut {
    ScanOut { filtered: Seq::empty(), queries: Seq::empty(), consumed: 0 }
}

/// One pass over `s`: scan byte by byte, answer recognized queries, pass
/// everything else through, and stop at an incomplete trailing sequence.
pub open spec fn scan(s: Seq<u8>) -> ScanOut
    decreases s.len(),
{
    if s.len() == 0 {
        scan_halt()
    } else if s[0] != 0x1b {
        let rest = scan(s.skip(1));
        ScanOut {
            filtered: seq![s[0]] + rest.filtered,
            queries: rest.queries,
            consumed: 1 + rest.consumed,
        }
    } else if s.len() == 1 {
        scan_halt()
    } else if s[1] == 0x5b {
        match csi_end(s.skip(2)) {
            None => scan_halt(),
            Some(e) => {
                let end = 2 + e as int;
                let sq = s.take(end + 1);
                let rest = scan(rest_after(s, end + 1));
                if sq == q_cursor() {
                    ScanOut {
                        filtered: rest.filtered,
                        queries: seq![TermQuery::CursorPos] + rest.queries,
                        consumed: end + 1 + rest.consumed,
                    }
                } else if sq == q_status() {
                    ScanOut {
                        filtered: rest.filtered,
                        queries: seq![TermQuery::DeviceStatus] + rest.queries,
                        consumed: end + 1 + rest.consumed,
                    }
                } else if sq == q_attrs() {
                    ScanOut {
                        filtered: rest.filtered,
                        queries: seq![TermQuery::DeviceAttrs] + rest.queries,
                        consumed: end + 1 + rest.consumed,
                    }
                } else {
                    ScanOut {
                        filtered: sq + rest.filtered,
                        queries: rest.queries,
                        consumed: end + 1 + rest.consumed,
                    }
                }
            },
        }
    } else if s[1] == 0x5d {
        match osc_end(s.skip(2)) {
            None => scan_halt(),
            Some(e) => {
                let end = 2 + e as int;
                let rest = scan(rest_after(s, end + 1));
                ScanOut {
                    filtered: s.take(end + 1) + rest.filtered,
                    queries: rest.queries,
                    consumed: end + 1 + rest.consumed,
                }
            },
        }
    } else if s[1] == 0x50 || s[1] == 0x58 || s[1] == 0x5e || s[1] == 0x5f {
        match st_end(s.skip(2)) {
            None => scan_halt(),
            Some(e) => {
                let end = 2 + e as int;
                let rest = scan(rest_after(s, end + 1));
                ScanOut {
                    filtered: s.take(end + 1) + rest.filtered,
                    queries: rest.queries,
                    consumed: end + 1 + rest.consumed,
                }
            },
        }
    } else {
        match esc_fin(s.skip(1)) {
            None => scan_halt(),
            Some(e) => {
                let end = 1 + e as int;
                let rest = scan(rest_after(s, end + 1));
                ScanOut {
                    filtered: s.take(end + 1) + rest.filtered,
                    queries: rest.queries,
                    consumed: end + 1 + rest.consumed,
                }
            },
        }
    }
}

proof fn lemma_csi_end_bounds(s: Seq<u8>)
    ensures
        match csi_end(s) {
            None => true,
            Some(e) => 0 <= e < s.len(),
        },
    decreases s.len(),
{
    if s.len() > 0 && !is_csi_final(s[0]) {
        lemma_csi_end_bounds(s.skip(1));
    }
}

proof fn lemma_osc_end_bounds(s: Seq<u8>)
    ensures
        match osc_end(s) {
            None => true,
            Some(e) => 0 <= e < s.len(),
        },
    decreases s.len(),
{
    if s.len() > 0 && s[0] != 0x07 && !(s[0] == 0x1b && s.len() >= 2 && s[1] == 0x5c) {
        lemma_osc_end_bounds(s.skip(1));
    }
}

proof fn lemma_st_end_bounds(s: Seq<u8>)
    ensures
        match st_end(s) {
            None => true,
            Some(e) => 0 <= e < s.len(),
        },
    decreases s.len(),
{
    if s.len() >= 2 && !(s[0] == 0x1b && s[1] == 0x5c) {
        lemma_st_end_bounds(s.skip(1));
    }
}

proof fn lemma_esc_fin_bounds(s: Seq<u8>)
    ensures
        match esc_fin(s) {
            None => true,
            Some(e) => 0 <= e < s.len(),
        },
    decreases s.len(),
{
    if s.len() > 0 && 0x20 <= s[0] <= 0x2f {
        lemma_esc_fin_bounds(s.skip(1));
    }
}

/// A pass never consumes more than the stream holds.
pub proof fn lemma_scan_consumed_bounds(s: Seq<u8>)
    ensures
        0 <= scan(s).consumed <= s.len(),
    decreases s.len(),
{
    if s.len() == 0 {
    } else if s[0] != 0x1b {
        lemma_scan_consumed_bounds(s.skip(1));
    } else if s.len() == 1 {
    } else if s[1] == 0x5b {
        lemma_csi_end_bounds(s.skip(2));
        match csi_end(s.skip(2)) {
            None => {},
            Some(e) => {
                assert(rest_after(s, 2 + e as int + 1) == s.skip(2 + e as int + 1));
                lemma_scan_consumed_bounds(s.skip(2 + e as int + 1));
            },
        }
    } else if s[1] == 0x5d {
        lemma_osc_end_bounds(s.skip(2));
        match osc_end(s.skip(2)) {
            None => {},
            Some(e) => {
                assert(rest_after(s, 2 + e as int + 1) == s.skip(2 + e as int + 1));
                lemma_scan_consumed_bounds(s.skip(2 + e as int + 1));
            },
        }
    } else if s[1] == 0x50 || s[1] == 0x58 || s[1] == 0x5e || s[1] == 0x5f {
        lemma_st_end_bounds(s.skip(2));
        match st_end(s.skip(2)) {
            None => {},
            Some(e) => {
                assert(rest_after(s, 2 + e as int + 1) == s.skip(2 + e as int + 1));
                lemma_scan_consumed_bounds(s.skip(2 + e as int + 1));
            },
        }
    } else {
        lemma_esc_fin_bounds(s.skip(1));
        match esc_fin(s.skip(1)) {
            None => {},
            Some(e) => {
                assert(rest_after(s, 1 + e as int + 1) == s.skip(1 + e as int + 1));
                lemma_scan_consumed_bounds(s.skip(1 + e as int + 1));
            },
        }
    }
}

proof fn lemma_csi_end_append(s: Seq<u8>, t: Seq<u8>)
    requires
        csi_end(s) is Some,
    ensures
        csi_end(s + t) == csi_end(s),
    decreases s.len(),
{
    assert((s + t)[0] == s[0]);
    if !is_csi_final(s[0]) {
        assert((s + t).skip(1) =~= s.skip(1) + t);
        lemma_csi_end_append(s.skip(1), t);
    }
}

proof fn lemma_osc_end_append(s: Seq<u8>, t: Seq<u8>)
    requires
        osc_end(s) is Some,
    ensures
        osc_end(s + t) == osc_end(s),
    decreases s.len(),
{
    assert((s + t)[0] == s[0]);
    if s[0] == 0x07 {
    } else if s[0] == 0x1b && s.len() >= 2 && s[1] == 0x5c {
        assert((s + t)[1] == s[1]);
    } else {
        assert(s.len() >= 2 ==> (s + t)[1] == s[1]);
        assert((s + t).skip(1) =~= s.skip(1) + t);
        lemma_osc_end_append(s.skip(1), t);
    }
}

proof fn lemma_st_end_append(s: Seq<u8>, t: Seq<u8>)
    requires
        st_end(s) is Some,
    ensures
        st_end(s + t) == st_end(s),
    decreases s.len(),
{
    assert((s + t)[0] == s[0]);
    assert((s + t)[1] == s[1]);
    if !(s[0] == 0x1b && s[1] == 0x5c) {
        assert((s + t).skip(1) =~= s.skip(1) + t);
        lemma_st_end_append(s.skip(1), t);
    }
}

proof fn lemma_esc_fin_append(s: Seq<u8>, t: Seq<u8>)
    requires
        esc_fin(s) is Some,
    ensures
        esc_fin(s + t) == esc_fin(s),
    decreases s.len(),
{
    assert((s + t)[0] == s[0]);
    if 0x20 <= s[0] <= 0x2f {
        assert((s + t).skip(1) =~= s.skip(1) + t);
        lemma_esc_fin_append(s.skip(1), t);
    }
}

/// Chunk-size independence: scanning a stream in two pieces — the second
/// prefixed with whatever the first piece left unconsumed — passes through
/// the same bytes and recognizes the same queries, in the same order, as
/// scanning the whole stream at once.
#[verifier::rlimit(100)]
pub proof fn lemma_scan_append(s: Seq<u8>, t: Seq<u8>)
    ensures
        scan(s + t).filtered == scan(s).filtered + scan(s.skip(scan(s).consumed) + t).filtered,
        scan(s + t).queries == scan(s).queries + scan(s.skip(scan(s).consumed) + t).queries,
        scan(s + t).consumed == scan(s).consumed + scan(s.skip(scan(s).consumed) + t).consumed,
    decreases s.len(),
{
    lemma_scan_consumed_bounds(s);
    if s.len() == 0 {
        assert(s + t =~= t);
        assert(s.skip(0) =~= s);
        assert(s.skip(0) + t =~= t);
        assert(scan(s) == scan_halt());
    } else if s[0] != 0x1b {
        assert((s + t)[0] == s[0]);
        assert((s + t).skip(1) =~= s.skip(1) + t);
        lemma_scan_append(s.skip(1), t);
        lemma_scan_consumed_bounds(s.skip(1));
        let c1 = scan(s.skip(1)).consumed;
        assert(s.skip(1).skip(c1) =~= s.skip(1 + c1));
        assert(scan(s + t).filtered =~= scan(s).filtered + scan(s.skip(scan(s).consumed) + t).filtered);
        assert(scan(s + t).queries =~= scan(s).queries + scan(s.skip(scan(s).consumed) + t).queries);
    } else if scan(s).consumed == 0 {
        // The stream begins with an incomplete escape sequence: the first
        // pass passed nothing on, and the second pass sees the whole stream.
        assert(s.skip(0) =~= s);
        assert(scan(s).filtered.len() == 0 && scan(s).queries.len() == 0) by {
            lemma_scan_halt_when_incomplete(s);
        }
    } else {
        // A complete escape sequence stands at the front; it is read the
        // same way whether or not `t` follows.
        assert((s + t)[0] == s[0]);
        assert((s + t)[1] == s[1]);
        assert((s + t).len() >= 2);
        assert((s + t).skip(2) =~= s.skip(2) + t);
        assert((s + t).skip(1) =~= s.skip(1) + t);
        if s[1] == 0x5b {
            match csi_end(s.skip(2)) {
                None => {
                    assert(scan(s).consumed == 0);
                },
                Some(e) => {
                    lemma_csi_end_bounds(s.skip(2));
                    lemma_csi_end_append(s.skip(2), t);
                    let end = 2 + e as int;
                    assert((s + t).take(end + 1) =~= s.take(end + 1));
                    assert((s + t).skip(end + 1) =~= s.skip(end + 1) + t);
                    assert(rest_after(s, end + 1) == s.skip(end + 1));
                    assert(rest_after(s + t, end + 1) == (s + t).skip(end + 1));
                    lemma_scan_append(s.skip(end + 1), t);
                    lemma_scan_consumed_bounds(s.skip(end + 1));
                    let c1 = scan(s.skip(end + 1)).consumed;
                    assert(s.skip(end + 1).skip(c1) =~= s.skip(end + 1 + c1));
                    let sq = s.take(end + 1);
                    if sq == q_cursor() || sq == q_status() || sq == q_attrs() {
                        assert(scan(s + t).queries =~= scan(s).queries + scan(
                            s.skip(scan(s).consumed) + t,
                        ).queries);
                    } else {
                        assert(scan(s + t).filtered =~= scan(s).filtered + scan(
                            s.skip(scan(s).consumed) + t,
                        ).filtered);
                        assert(scan(s + t).queries =~= scan(s).queries + scan(
                            s.skip(scan(s).consumed) + t,
                        ).queries);
                    }
                },
            }
        } else if s[1] == 0x5d {
            match osc_end(s.skip(2)) {
                None => {
                    assert(scan(s).consumed == 0);
                },
                Some(e) => {
                    lemma_osc_end_bounds(s.skip(2));
                    lemma_osc_end_append(s.skip(2), t);
                    let end = 2 + e as int;
                    assert((s + t).take(end + 1) =~= s.take(end + 1));
                    assert((s + t).skip(end + 1) =~= s.skip(end + 1) + t);
                    assert(rest_after(s, end + 1) == s.skip(end + 1));
                    assert(rest_after(s + t, end + 1) == (s + t).skip(end + 1));
                    lemma_scan_append(s.skip(end + 1), t);
                    lemma_scan_consumed_bounds(s.skip(end + 1));
                    let c1 = scan(s.skip(end + 1)).consumed;
                    assert(s.skip(end + 1).skip(c1) =~= s.skip(end + 1 + c1));
                    assert(scan(s + t).filtered =~= scan(s).filtered + scan(
                        s.skip(scan(s).consumed) + t,
                    ).filtered);
                    assert(scan(s + t).queries =~= scan(s).queries + scan(
                        s.skip(scan(s).consumed) + t,
                    ).queries);
                },
            }
        } else if s[1] == 0x50 || s[1] == 0x58 || s[1] == 0x5e || s[1] == 0x5f {
            match st_end(s.skip(2)) {
                None => {
                    assert(scan(s).consumed == 0);
                },
                Some(e) => {
                    lemma_st_end_bounds(s.skip(2));
                    lemma_st_end_append(s.skip(2), t);
                    let end = 2 + e as int;
                    assert((s + t).take(end + 1) =~= s.take(end + 1));
                    assert((s + t).skip(end + 1) =~= s.skip(end + 1) + t);
                    assert(rest_after(s, end + 1) == s.skip(end + 1));
                    assert(rest_after(s + t, end + 1) == (s + t).skip(end + 1));
                    lemma_scan_append(s.skip(end + 1), t);
                    lemma_scan_consumed_bounds(s.skip(end + 1));
                    let c1 = scan(s.skip(end + 1)).consumed;
                    assert(s.skip(end + 1).skip(c1) =~= s.skip(end + 1 + c1));
                    assert(scan(s + t).filtered =~= scan(s).filtered + scan(
                        s.skip(scan(s).consumed) + t,
                    ).filtered);
                    assert(scan(s + t).queries =~= scan(s).queries + scan(
                        s.skip(scan(s).consumed) + t,
                    ).queries);
                },
            }
        } else {
            match esc_fin(s.skip(1)) {
                None => {
                    assert(scan(s).consumed == 0);
                },
                Some(e) => {
                    lemma_esc_fin_bounds(s.skip(1));
                    lemma_esc_fin_append(s.skip(1), t);
                    let end = 1 + e as int;
                    assert((s + t).take(end + 1) =~= s.take(end + 1));
                    assert((s + t).skip(end + 1) =~= s.skip(end + 1) + t);
                    assert(rest_after(s, end + 1) == s.skip(end + 1));
                    assert(rest_after(s + t, end + 1) == (s + t).skip(end + 1));
                    lemma_scan_append(s.skip(end + 1), t);
                    lemma_scan_consumed_bounds(s.skip(end + 1));
                    let c1 = scan(s.skip(end + 1)).consumed;
                    assert(s.skip(end + 1).skip(c1) =~= s.skip(end + 1 + c1));
                    assert(scan(s + t).filtered =~= scan(s).filtered + scan(
                        s.skip(scan(s).consumed) + t,
                    ).filtered);
                    assert(scan(s + t).queries =~= scan(s).queries + scan(
                        s.skip(scan(s).consumed) + t,
                    ).queries);
                },
            }
        }
    }
}

/// The held-back tail is exactly the unclassifiable remainder: scanning it
/// alone consumes nothing, passes nothing on and answers nothing — it never
/// holds a sequence that was already fully classified.
pub proof fn lemma_scan_residual(s: Seq<u8>)
    ensures
        scan(s.skip(scan(s).consumed)).consumed == 0,
        scan(s.skip(scan(s).consumed)).filtered.len() == 0,
        scan(s.skip(scan(s).consumed)).queries.len() == 0,
{
    lemma_scan_append(s, Seq::empty());
    assert(s + Seq::<u8>::empty() =~= s);
    assert(s.skip(scan(s).consumed) + Seq::<u8>::empty() =~= s.skip(scan(s).consumed));
}

/// A pass that consumes nothing passes nothing on and answers nothing.
proof fn lemma_scan_halt_when_incomplete(s: Seq<u8>)
    requires
        s.len() > 0,
        s[0] == 0x1b,
        scan(s).consumed == 0,
    ensures
        scan(s).filtered.len() == 0,
        scan(s).queries.len() == 0,
{
    if s.len() == 1 {
    } else if s[1] == 0x5b {
        lemma_csi_end_bounds(s.skip(2));
        match csi_end(s.skip(2)) {
            None => {},
            Some(e) => {
                assert(rest_after(s, 2 + e as int + 1) == s.skip(2 + e as int + 1));
                lemma_scan_consumed_bounds(s.skip(2 + e as int + 1));
            },
        }
    } else if s[1] == 0x5d {
        lemma_osc_end_bounds(s.skip(2));
        match osc_end(s.skip(2)) {
            None => {},
            Some(e) => {
                assert(rest_after(s, 2 + e as int + 1) == s.skip(2 + e as int + 1));
                lemma_scan_consumed_bounds(s.skip(2 + e as int + 1));
            },
        }
    } else if s[1] == 0x50 || s[1] == 0x58 || s[1] == 0x5e || s[1] == 0x5f {
        lemma_st_end_bounds(s.skip(2));
        match st_end(s.skip(2)) {
            None => {},
            Some(e) => {
                assert(rest_after(s, 2 + e as int + 1) == s.skip(2 + e as int + 1));
                lemma_scan_consumed_bounds(s.skip(2 + e as int + 1));
            },
        }
    } else {
        lemma_esc_fin_bounds(s.skip(1));
        match esc_fin(s.skip(1)) {
            None => {},
            Some(e) => {
                assert(rest_after(s, 1 + e as int + 1) == s.skip(1 + e as int + 1));
                lemma_scan_consumed_bounds(s.skip(1 + e as int + 1));
            },
        }
    }
}

/// No byte of `s` is the escape byte.
pub open spec fn escape_free(s: Seq<u8>) -> bool {
    forall|i: int| 0 <= i < s.len() ==> s[i] != 0x1b
}

/// A stream without escape bytes passes through exactly as it is, with no
/// queries recognized and nothing held back.
pub proof fn lemma_escape_free_passthrough(s: Seq<u8>)
    requires
        escape_free(s),
    ensures
        scan(s).filtered == s,
        scan(s).queries == Seq::<TermQuery>::empty(),
        scan(s).consumed == s.len(),
    decreases s.len(),
{
    if s.len() == 0 {
        assert(scan(s).filtered =~= s);
    } else {
        assert(s[0] != 0x1b);
        assert(escape_free(s.skip(1))) by {
            assert(forall|i: int| 0 <= i < s.skip(1).len() ==> s.skip(1)[i] == s[i + 1]);
        }
        lemma_escape_free_passthrough(s.skip(1));
        assert(scan(s).filtered =~= s) by {
            assert(seq![s[0]] + s.skip(1) =~= s);
        }
    }
}

/// A scan of an escape-free prefix followed by anything else reads the
/// prefix straight through and goes on with the rest.
pub proof fn lemma_escape_free_prefix(a: Seq<u8>, t: Seq<u8>)
    requires
        escape_free(a),
    ensures
        scan(a + t).filtered == a + scan(t).filtered,
        scan(a + t).queries == scan(t).queries,
        scan(a + t).consumed == a.len() + scan(t).consumed,
    decreases a.len(),
{
    if a.len() == 0 {
        assert(a + t =~= t);
        assert(scan(a + t).filtered =~= a + scan(t).filtered);
    } else {
        assert((a + t)[0] == a[0]);
        assert((a + t).skip(1) =~= a.skip(1) + t);
        assert(escape_free(a.skip(1))) by {
            assert(forall|i: int| 0 <= i < a.skip(1).len() ==> a.skip(1)[i] == a[i + 1]);
        }
        lemma_escape_free_prefix(a.skip(1), t);
        assert(scan(a + t).filtered =~= a + scan(t).filtered) by {
            assert(seq![a[0]] + (a.skip(1) + scan(t).filtered) =~= a + scan(t).filtered);
        }
    }
}

/// A cursor query between escape-free stretches is answered exactly once and
/// removed from the pass-through bytes: the filtered output is the stream
/// without the query, and the only recognized query is the cursor report.
pub proof fn lemma_cursor_query_intercepted(a: Seq<u8>, b: Seq<u8>)
    requires
        escape_free(a),
        escape_free(b),
    ensures
        scan(a + q_cursor() + b).filtered == a + b,
        scan(a + q_cursor() + b).queries == seq![TermQuery::CursorPos],
        scan(a + q_cursor() + b).consumed == a.len() + 4 + b.len(),
{
    let qb = q_cursor() + b;
    assert(a + q_cursor() + b =~= a + qb);
    lemma_escape_free_prefix(a, qb);
    // Scan the query itself: ESC [ 6 n with `b` behind it.
    assert(qb[0] == 0x1b && qb[1] == 0x5b && qb[2] == 0x36 && qb[3] == 0x6e);
    assert(qb.len() == 4 + b.len());
    let s2 = qb.skip(2);
    assert(s2[0] == 0x36 && !is_csi_final(0x36u8));
    assert(s2.skip(1) =~= qb.skip(3));
    assert(qb.skip(3)[0] == 0x6e && is_csi_final(0x6eu8));
    assert(csi_end(qb.skip(3)) == Some(0nat));
    assert(csi_end(s2) == Some(1nat));
    assert(qb.take(4) =~= q_cursor());
    assert(qb.skip(4) =~= b);
    assert(rest_after(qb, 4) == qb.skip(4));
    lemma_escape_free_passthrough(b);
    assert(scan(qb).filtered == b);
    assert(scan(qb).queries =~= seq![TermQuery::CursorPos]);
    assert(scan(qb).consumed == 4 + b.len());
    assert(scan(a + qb).filtered =~= a + b);
}

/// The decimal digits of a non-negative number, most significant first.
pub open spec fn dec_digits(n: int) -> Seq<u8>
    decreases n,
{
    if n < 10 {
        seq![(0x30 + n) as u8]
    } else {
        dec_digits(n / 10) + seq![(0x30 + n % 10) as u8]
    }
}

/// Appends the decimal digits of `n` to `out`.
pub fn push_dec(out: &mut Vec<u8>, n: u16)
    ensures
        final(out)@ == old(out)@ + dec_digits(n as int),
    decreases n,
{
    if n < 10 {
        out.push(0x30 + n as u8);
        proof {
            assert(out@ =~= old(out)@ + dec_digits(n as int));
        }
    } else {
        push_dec(out, n / 10);
        out.push(0x30 + (n % 10) as u8);
        proof {
            assert(out@ =~= old(out)@ + dec_digits(n as int));
        }
    }
}

/// `x + 1` without leaving the 16-bit range.
pub open spec fn sat_inc(x: u16) -> int {
    if x == 0xffff {
        0xffff
    } else {
        x as int + 1
    }
}

/// The cursor position report for a zero-based (row, column) pair:
/// `ESC [ {row+1} ; {col+1} R`, both numbers one-based.
pub open spec fn cursor_report(row: u16, col: u16) -> Seq<u8> {
    seq![0x1bu8, 0x5bu8] + dec_digits(sat_inc(row)) + seq![0x3bu8] + dec_digits(sat_inc(col))
        + seq![0x52u8]
}

/// Both numbers in a cursor report are at least one.
pub proof fn lemma_cursor_report_form(row: u16, col: u16)
    ensures
        exists|r: int, c: int|
            1 <= r && 1 <= c && cursor_report(row, col) == seq![0x1bu8, 0x5bu8] + dec_digits(r)
                + seq![0x3bu8] + dec_digits(c) + seq![0x52u8],
{
    let r = sat_inc(row);
    let c = sat_inc(col);
    assert(1 <= r && 1 <= c && cursor_report(row, col) == seq![0x1bu8, 0x5bu8] + dec_digits(r)
        + seq![0x3bu8] + dec_digits(c) + seq![0x52u8]);
}

/// The bytes answering a cursor position query, given the cursor position
/// as crossterm reports it — `Some((column, row))`, zero-based — or `None`
/// when the position could not be read, which answers as the origin.
pub fn cursor_position_response(pos: Option<(u16, u16)>) -> (r: Vec<u8>)
    ensures
        r@ == (match pos {
            Some(p) => cursor_report(p.1, p.0),
            None => cursor_report(0, 0),
        }),
{
    let (col, row) = match pos {
        Some(p) => p,
        None => (0u16, 0u16),
    };
    let r1: u16 = if row == 0xffff {
        0xffff
    } else {
        row + 1
    };
    let c1: u16 = if col == 0xffff {
        0xffff
    } else {
        col + 1
    };
    let mut out: Vec<u8> = Vec::new();
    out.push(0x1b);
    out.push(0x5b);
    push_dec(&mut out, r1);
    out.push(0x3b);
    push_dec(&mut out, c1);
    out.push(0x52);
    proof {
        assert(out@ =~= cursor_report(row, col));
    }
    out
}

/// Relies on `crossterm::cursor::position`: reads the terminal's cursor
/// position as a zero-based `(column, row)` pair; the outcome depends on the
/// terminal, so nothing is promised of it.
#[verifier::external_body]
fn query_cursor_position() -> (r: Option<(u16, u16)>) {
    crossterm::cursor::position().ok()
}

/// What a response must look like for each recognized query: device status
/// and device attributes have fixed answers; a cursor report carries
/// whatever position the terminal gave.
pub open spec fn response_ok(q: TermQuery, r: Seq<u8>) -> bool {
    match q {
        TermQuery::CursorPos => exists|row: u16, col: u16| r == cursor_report(row, col),
        TermQuery::DeviceStatus => r == resp_status(),
        TermQuery::DeviceAttrs => r == resp_attrs(),
    }
}

/// The fixed device status answer.
fn make_status_response() -> (r: Vec<u8>)
    ensures
        r@ == resp_status(),
{
    let mut out: Vec<u8> = Vec::new();
    out.push(0x1b);
    out.push(0x5b);
    out.push(0x30);
    out.push(0x6e);
    proof {
        assert(out@ =~= resp_status());
    }
    out
}

/// The fixed device attributes answer.
fn make_attrs_response() -> (r: Vec<u8>)
    ensures
        r@ == resp_attrs(),
{
    let mut out: Vec<u8> = Vec::new();
    out.push(0x1b);
    out.push(0x5b);
    out.push(0x3f);
    out.push(0x31);
    out.push(0x3b);
    out.push(0x30);
    out.push(0x63);
    proof {
        assert(out@ =~= resp_attrs());
    }
    out
}

/// First position of the final byte (0x40..0x7e) of a CSI sequence in
/// `buf`, searching from `start`.
pub fn parse_csi_end(buf: &Vec<u8>, start: usize) -> (r: Option<usize>)
    requires
        start <= buf@.len(),
    ensures
        (match csi_end(buf@.skip(start as int)) {
            None => r is None,
            Some(e) => r == Some((start + e) as usize),
        }),
{
    let n = buf.len();
    let mut j = start;
    while j < n
        invariant
            start <= j <= n,
            n == buf@.len(),
            csi_end(buf@.skip(start as int)) == (match csi_end(buf@.skip(j as int)) {
                None => None::<nat>,
                Some(e) => Some((j - start + e) as nat),
            }),
        decreases n - j,
    {
        let b = buf[j];
        proof {
            assert(buf@.skip(j as int)[0] == buf@[j as int]);
        }
        if 0x40 <= b && b <= 0x7e {
            return Some(j);
        }
        proof {
            assert(buf@.skip(j as int).skip(1) =~= buf@.skip(j + 1));
        }
        j = j + 1;
    }
    proof {
        assert(buf@.skip(n as int).len() == 0);
    }
    None
}

/// Position of the byte ending an OSC string (BEL, or the backslash of
/// `ESC \`) in `buf`, searching from `start`.
pub fn parse_osc_end(buf: &Vec<u8>, start: usize) -> (r: Option<usize>)
    requires
        start <= buf@.len(),
    ensures
        (match osc_end(buf@.skip(start as int)) {
            None => r is None,
            Some(e) => r == Some((start + e) as usize),
        }),
{
    let n = buf.len();
    let mut j = start;
    while j < n
        invariant
            start <= j <= n,
            n == buf@.len(),
            osc_end(buf@.skip(start as int)) == (match osc_end(buf@.skip(j as int)) {
                None => None::<nat>,
                Some(e) => Some((j - start + e) as nat),
            }),
        decreases n - j,
    {
        let b = buf[j];
        proof {
            assert(buf@.skip(j as int)[0] == buf@[j as int]);
            assert(buf@.skip(j as int).len() == n - j);
            assert(j + 1 < n ==> buf@.skip(j as int)[1] == buf@[j + 1]);
        }
        if b == 0x07 {
            return Some(j);
        }
        if b == 0x1b && j + 1 < n && buf[j + 1] == 0x5c {
            return Some(j + 1);
        }
        proof {
            assert(buf@.skip(j as int).skip(1) =~= buf@.skip(j + 1));
        }
        j = j + 1;
    }
    proof {
        assert(buf@.skip(n as int).len() == 0);
    }
    None
}

/// Position of the backslash of the first `ESC \` terminator in `buf`,
/// searching from `start`.
pub fn parse_st_terminated(buf: &Vec<u8>, start: usize) -> (r: Option<usize>)
    requires
        start <= buf@.len(),
    ensures
        (match st_end(buf@.skip(start as int)) {
            None => r is None,
            Some(e) => r == Some((start + e) as usize),
        }),
{
    let n = buf.len();
    let mut j = start;
    while j < n && j + 1 < n
        invariant
            start <= j <= n,
            n == buf@.len(),
            st_end(buf@.skip(start as int)) == (match st_end(buf@.skip(j as int)) {
                None => None::<nat>,
                Some(e) => Some((j - start + e) as nat),
            }),
        decreases n - j,
    {
        proof {
            assert(buf@.skip(j as int)[0] == buf@[j as int]);
            assert(buf@.skip(j as int)[1] == buf@[j + 1]);
        }
        if buf[j] == 0x1b && buf[j + 1] == 0x5c {
            return Some(j + 1);
        }
        proof {
            assert(buf@.skip(j as int).skip(1) =~= buf@.skip(j + 1));
        }
        j = j + 1;
    }
    proof {
        assert(buf@.skip(j as int).len() <= 1);
    }
    None
}

/// Position of the byte that ends a bare escape sequence: the first byte in
/// `buf` from `start` on that is not an intermediate byte (0x20..0x2f).
pub fn parse_esc(buf: &Vec<u8>, start: usize) -> (r: Option<usize>)
    requires
        start <= buf@.len(),
    ensures
        (match esc_fin(buf@.skip(start as int)) {
            None => r is None,
            Some(e) => r == Some((start + e) as usize),
        }),
{
    let n = buf.len();
    let mut j = start;
    while j < n
        invariant
            start <= j <= n,
            n == buf@.len(),
            esc_fin(buf@.skip(start as int)) == (match esc_fin(buf@.skip(j as int)) {
                None => None::<nat>,
                Some(e) => Some((j - start + e) as nat),
            }),
        decreases n - j,
    {
        let b = buf[j];
        proof {
            assert(buf@.skip(j as int)[0] == buf@[j as int]);
        }
        if !(0x20 <= b && b <= 0x2f) {
            return Some(j);
        }
        proof {
            assert(buf@.skip(j as int).skip(1) =~= buf@.skip(j + 1));
        }
        j = j + 1;
    }
    proof {
        assert(buf@.skip(n as int).len() == 0);
    }
    None
}

/// Index of the first escape byte in `s`, or the length if there is none.
pub open spec fn first_esc(s: Seq<u8>) -> int
    decreases s.len(),
{
    if s.len() == 0 {
        0
    } else if s[0] == 0x1b {
        0
    } else {
        1 + first_esc(s.skip(1))
    }
}

/// What `finish` flushes: the bytes before the first escape byte; an
/// unterminated escape tail is discarded.
pub open spec fn flush_tail(s: Seq<u8>) -> Seq<u8> {
    s.take(first_esc(s))
}

/// What one `process` call hands back: the bytes to forward to the real
/// terminal, and the answers — in recognition order — to write back into
/// the pseudo-terminal.
pub struct ProcessOutput {
    /// The input with recognized query sequences removed.
    pub filtered: Vec<u8>,
    /// One answer for each recognized query, in order.
    pub responses: Vec<Vec<u8>>,
}

/// The escape-sequence responder: keeps the unconsumed tail of the stream,
/// which may be the prefix of a sequence whose terminator has not arrived.
pub struct VtResponder {
    pending: Vec<u8>,
}

impl VtResponder {
    /// The bytes currently held back, waiting for a terminator.
    pub closed spec fn pending_bytes(&self) -> Seq<u8> {
        self.pending@
    }

    /// A responder with nothing pending.
    pub fn new() -> (r: Self)
        ensures
            r.pending_bytes() == Seq::<u8>::empty(),
    {
        VtResponder { pending: Vec::new() }
    }

    /// Feeds one chunk of the stream through the responder.  The returned
    /// filtered bytes and responses are exactly what one scan pass over the
    /// held-back tail followed by this chunk yields, and the new tail is
    /// what that pass left unconsumed.
    #[verifier::rlimit(100)]
    pub fn process(&mut self, chunk: &[u8]) -> (out: ProcessOutput)
        ensures
            ({
                let stream = old(self).pending_bytes() + chunk@;
                let sc = scan(stream);
                &&& out.filtered@ == sc.filtered
                &&& final(self).pending_bytes() == stream.skip(sc.consumed)
                &&& out.responses@.len() == sc.queries.len()
                &&& forall|j: int|
                    0 <= j < sc.queries.len() ==> response_ok(sc.queries[j], out.responses@[j]@)
            }),
    {
        let ghost stream = self.pending@ + chunk@;
        let mut k: usize = 0;
        while k < chunk.len()
            invariant
                k <= chunk@.len(),
                self.pending@ == old(self).pending@ + chunk@.take(k as int),
            decreases chunk@.len() - k,
        {
            let b = *vstd::slice::slice_index_get(chunk, k);
            self.pending.push(b);
            proof {
                assert(chunk@.take(k + 1) =~= chunk@.take(k as int).push(chunk@[k as int]));
                assert(self.pending@ =~= old(self).pending@ + chunk@.take(k + 1));
            }
            k = k + 1;
        }
        proof {
            assert(chunk@.take(chunk@.len() as int) =~= chunk@);
            assert(self.pending@ == stream);
        }

        let n = self.pending.len();
        let mut filtered: Vec<u8> = Vec::new();
        let mut responses: Vec<Vec<u8>> = Vec::new();
        let ghost mut qs: Seq<TermQuery> = Seq::empty();
        let mut i: usize = 0;
        proof {
            assert(stream.skip(0) =~= stream);
            assert(filtered@ + scan(stream).filtered =~= scan(stream).filtered);
            assert(qs + scan(stream).queries =~= scan(stream).queries);
        }
        loop
            invariant
                i <= n,
                n == stream.len(),
                self.pending@ == stream,
                responses@.len() == qs.len(),
                forall|j: int| 0 <= j < qs.len() ==> response_ok(qs[j], responses@[j]@),
                scan(stream).filtered == filtered@ + scan(stream.skip(i as int)).filtered,
                scan(stream).queries == qs + scan(stream.skip(i as int)).queries,
                scan(stream).consumed == i + scan(stream.skip(i as int)).consumed,
            ensures
                i <= n,
                n == stream.len(),
                self.pending@ == stream,
                responses@.len() == qs.len(),
                forall|j: int| 0 <= j < qs.len() ==> response_ok(qs[j], responses@[j]@),
                scan(stream).filtered == filtered@,
                scan(stream).queries == qs,
                scan(stream).consumed == i as int,
            decreases n - i,
        {
            let ghost u = stream.skip(i as int);
            if i >= n {
                proof {
                    assert(u.len() == 0);
                    assert(filtered@ + scan(u).filtered =~= filtered@);
                    assert(qs + scan(u).queries =~= qs);
                }
                break;
            }
            let b = self.pending[i];
            proof {
                assert(u[0] == stream[i as int]);
                assert(u.len() == n - i);
                assert(i + 1 < n ==> u[1] == stream[i + 1]);
            }
            if b != 0x1b {
                filtered.push(b);
                proof {
                    assert(u.skip(1) =~= stream.skip(i + 1));
                    assert(filtered@ + scan(stream.skip(i + 1)).filtered =~= (filtered@.drop_last()
                        + (seq![u[0]] + scan(u.skip(1)).filtered)));
                }
                i = i + 1;
                continue;
            }
            if i + 1 >= n {
                proof {
                    assert(u.len() == 1);
                    assert(filtered@ + scan(u).filtered =~= filtered@);
                    assert(qs + scan(u).queries =~= qs);
                }
                break;
            }
            let fam = self.pending[i + 1];
            if fam == 0x5b {
                let found = parse_csi_end(&self.pending, i + 2);
                proof {
                    assert(u.skip(2) =~= stream.skip(i + 2));
                    lemma_csi_end_bounds(stream.skip(i + 2));
                }
                match found {
                    None => {
                        proof {
                            assert(filtered@ + scan(u).filtered =~= filtered@);
                            assert(qs + scan(u).queries =~= qs);
                        }
                        break;
                    },
                    Some(end) => {
                        proof {
                            assert(i + 2 <= end < n);
                            assert(u.take(end - i + 1) =~= stream.subrange(i as int, end + 1));
                            assert(u.skip(end - i + 1) =~= stream.skip(end + 1));
                            assert(rest_after(u, end - i + 1) == u.skip(end - i + 1));
                        }
                        let ghost sq = u.take(end - i + 1);
                        let b2 = self.pending[i + 2];
                        let is_q6n = end == i + 3 && b2 == 0x36 && self.pending[i + 3] == 0x6e;
                        let is_q5n = end == i + 3 && b2 == 0x35 && self.pending[i + 3] == 0x6e;
                        let is_qc = end == i + 2 && b2 == 0x63;
                        proof {
                            if is_q6n {
                                assert(sq =~= q_cursor());
                            } else {
                                assert(sq != q_cursor()) by {
                                    if sq == q_cursor() {
                                        assert(sq.len() == 4);
                                        assert(sq[2] == 0x36 && sq[3] == 0x6e);
                                        assert(stream[i + 2] == 0x36 && stream[i + 3] == 0x6e);
                                    }
                                }
                            }
                            if is_q5n {
                                assert(sq =~= q_status());
                            } else {
                                assert(sq != q_status()) by {
                                    if sq == q_status() {
                                        assert(sq.len() == 4);
                                        assert(sq[2] == 0x35 && sq[3] == 0x6e);
                                        assert(stream[i + 2] == 0x35 && stream[i + 3] == 0x6e);
                                    }
                                }
                            }
                            if is_qc {
                                assert(sq =~= q_attrs());
                            } else {
                                assert(sq != q_attrs()) by {
                                    if sq == q_attrs() {
                                        assert(sq.len() == 3);
                                        assert(sq[2] == 0x63);
                                        assert(stream[i + 2] == 0x63);
                                    }
                                }
                            }
                        }
                        if is_q6n {
                            let pos = query_cursor_position();
                            let resp = cursor_position_response(pos);
                            proof {
                                match pos {
                                    Some(p) => {
                                        assert(resp@ == cursor_report(p.1, p.0));
                                    },
                                    None => {
                                        assert(resp@ == cursor_report(0u16, 0u16));
                                    },
                                }
                                assert(response_ok(TermQuery::CursorPos, resp@));
                            }
                            responses.push(resp);
                            proof {
                                qs = qs.push(TermQuery::CursorPos);
                                assert(qs + scan(stream.skip(end + 1)).queries =~= (qs.drop_last()
                                    + (seq![TermQuery::CursorPos] + scan(
                                    u.skip(end - i + 1),
                                ).queries)));
                            }
                        } else if is_q5n {
                            let resp = make_status_response();
                            responses.push(resp);
                            proof {
                                qs = qs.push(TermQuery::DeviceStatus);
                                assert(qs + scan(stream.skip(end + 1)).queries =~= (qs.drop_last()
                                    + (seq![TermQuery::DeviceStatus] + scan(
                                    u.skip(end - i + 1),
                                ).queries)));
                            }
                        } else if is_qc {
                            let resp = make_attrs_response();
                            responses.push(resp);
                            proof {
                                qs = qs.push(TermQuery::DeviceAttrs);
                                assert(qs + scan(stream.skip(end + 1)).queries =~= (qs.drop_last()
                                    + (seq![TermQuery::DeviceAttrs] + scan(
                                    u.skip(end - i + 1),
                                ).queries)));
                            }
                        } else {
                            let ghost fprev = filtered@;
                            push_range(&mut filtered, &self.pending, i, end + 1);
                            proof {
                                assert(filtered@ + scan(stream.skip(end + 1)).filtered =~= (fprev
                                    + (sq + scan(u.skip(end - i + 1)).filtered)));
                            }
                        }
                        i = end + 1;
                    },
                }
            } else if fam == 0x5d {
                let found = parse_osc_end(&self.pending, i + 2);
                proof {
                    assert(u.skip(2) =~= stream.skip(i + 2));
                    lemma_osc_end_bounds(stream.skip(i + 2));
                }
                match found {
                    None => {
                        proof {
                            assert(filtered@ + scan(u).filtered =~= filtered@);
                            assert(qs + scan(u).queries =~= qs);
                        }
                        break;
                    },
                    Some(end) => {
                        proof {
                            assert(i + 2 <= end < n);
                            assert(u.take(end - i + 1) =~= stream.subrange(i as int, end + 1));
                            assert(u.skip(end - i + 1) =~= stream.skip(end + 1));
                            assert(rest_after(u, end - i + 1) == u.skip(end - i + 1));
                        }
                        let ghost fprev = filtered@;
                        push_range(&mut filtered, &self.pending, i, end + 1);
                        proof {
                            assert(filtered@ + scan(stream.skip(end + 1)).filtered =~= (fprev + (
                            u.take(end - i + 1) + scan(u.skip(end - i + 1)).filtered)));
                        }
                        i = end + 1;
                    },
                }
            } else if fam == 0x50 || fam == 0x58 || fam == 0x5e || fam == 0x5f {
                let found = parse_st_terminated(&self.pending, i + 2);
                proof {
                    assert(u.skip(2) =~= stream.skip(i + 2));
                    lemma_st_end_bounds(stream.skip(i + 2));
                }
                match found {
                    None => {
                        proof {
                            assert(filtered@ + scan(u).filtered =~= filtered@);
                            assert(qs + scan(u).queries =~= qs);
                        }
                        break;
                    },
                    Some(end) => {
                        proof {
                            assert(i + 2 <= end < n);
                            assert(u.take(end - i + 1) =~= stream.subrange(i as int, end + 1));
                            assert(u.skip(end - i + 1) =~= stream.skip(end + 1));
                            assert(rest_after(u, end - i + 1) == u.skip(end - i + 1));
                        }
                        let ghost fprev = filtered@;
                        push_range(&mut filtered, &self.pending, i, end + 1);
                        proof {
                            assert(filtered@ + scan(stream.skip(end + 1)).filtered =~= (fprev + (
                            u.take(end - i + 1) + scan(u.skip(end - i + 1)).filtered)));
                        }
                        i = end + 1;
                    },
                }
            } else {
                let found = parse_esc(&self.pending, i + 1);
                proof {
                    assert(u.skip(1) =~= stream.skip(i + 1));
                    lemma_esc_fin_bounds(stream.skip(i + 1));
                }
                match found {
                    None => {
                        proof {
                            assert(filtered@ + scan(u).filtered =~= filtered@);
                            assert(qs + scan(u).queries =~= qs);
                        }
                        break;
                    },
                    Some(end) => {
                        proof {
                            assert(i + 1 <= end < n);
                            assert(u.take(end - i + 1) =~= stream.subrange(i as int, end + 1));
                            assert(u.skip(end - i + 1) =~= stream.skip(end + 1));
                            assert(rest_after(u, end - i + 1) == u.skip(end - i + 1));
                        }
                        let ghost fprev = filtered@;
                        push_range(&mut filtered, &self.pending, i, end + 1);
                        proof {
                            assert(filtered@ + scan(stream.skip(end + 1)).filtered =~= (fprev + (
                            u.take(end - i + 1) + scan(u.skip(end - i + 1)).filtered)));
                        }
                        i = end + 1;
                    },
                }
            }
        }
        let residual = subvec(&self.pending, i, n);
        self.pending = residual;
        proof {
            assert(stream.subrange(i as int, n as int) =~= stream.skip(i as int));
        }
        ProcessOutput { filtered, responses }
    }

    /// Ends the stream: returns the bytes before any still-pending escape
    /// sequence, to be flushed to the real terminal, and discards the
    /// unterminated tail.
    pub fn finish(&mut self) -> (tail: Vec<u8>)
        ensures
            tail@ == flush_tail(old(self).pending_bytes()),
            final(self).pending_bytes() == Seq::<u8>::empty(),
    {
        let n = self.pending.len();
        let mut j: usize = 0;
        proof {
            assert(self.pending@.skip(0) =~= self.pending@);
        }
        while j < n
            invariant
                j <= n,
                n == self.pending@.len(),
                self.pending@ == old(self).pending@,
                first_esc(self.pending@) == j + first_esc(self.pending@.skip(j as int)),
            ensures
                j <= n,
                n == self.pending@.len(),
                self.pending@ == old(self).pending@,
                first_esc(self.pending@) == j as int,
            decreases n - j,
        {
            proof {
                assert(self.pending@.skip(j as int)[0] == self.pending@[j as int]);
            }
            if self.pending[j] == 0x1b {
                break;
            }
            proof {
                assert(self.pending@.skip(j as int).skip(1) =~= self.pending@.skip(j + 1));
            }
            j = j + 1;
        }
        let tail = subvec(&self.pending, 0, j);
        proof {
            assert(self.pending@.subrange(0, j as int) =~= self.pending@.take(j as int));
        }
        self.pending = Vec::new();
        tail
    }
}

impl Default for VtResponder {
    /// A responder with nothing pending.
    fn default() -> (r: Self)
        ensures
            r.pending_bytes() == Seq::<u8>::empty(),
    {
        VtResponder::new()
    }
}

} // verus!
