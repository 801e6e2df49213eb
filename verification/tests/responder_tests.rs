use shellm::responder::VtResponder;

/// A cursor position report: `ESC [ {r} ; {c} R` with both numbers >= 1.
fn assert_cursor_report(resp: &[u8]) {
    assert!(resp.len() >= 6, "report too short: {:?}", resp);
    assert_eq!(&resp[..2], b"\x1b[");
    assert_eq!(*resp.last().unwrap(), b'R');
    let body = &resp[2..resp.len() - 1];
    let parts: Vec<&[u8]> = body.split(|b| *b == b';').collect();
    assert_eq!(parts.len(), 2);
    for part in parts {
        assert!(!part.is_empty());
        assert!(part.iter().all(|b| b.is_ascii_digit()));
        let n: u32 = std::str::from_utf8(part).unwrap().parse().unwrap();
        assert!(n >= 1);
    }
}

#[test]
fn plain_stream_passes_through() {
    let mut r = VtResponder::new();
    let out = r.process(b"hello, world\r\nno escapes here");
    assert_eq!(out.filtered, b"hello, world\r\nno escapes here");
    assert!(out.responses.is_empty());
    assert!(r.finish().is_empty());
}

#[test]
fn cursor_query_intercepted() {
    let mut r = VtResponder::new();
    let out = r.process(b"abc\x1b[6nxyz");
    assert_eq!(out.filtered, b"abcxyz");
    assert_eq!(out.responses.len(), 1);
    assert_cursor_report(&out.responses[0]);
}

#[test]
fn status_query_answered() {
    let mut r = VtResponder::new();
    let out = r.process(b"\x1b[5n");
    assert!(out.filtered.is_empty());
    assert_eq!(out.responses, vec![b"\x1b[0n".to_vec()]);
}

#[test]
fn attributes_query_answered() {
    let mut r = VtResponder::new();
    let out = r.process(b"\x1b[c");
    assert!(out.filtered.is_empty());
    assert_eq!(out.responses, vec![b"\x1b[?1;0c".to_vec()]);
}

#[test]
fn other_sequences_pass_through() {
    let mut r = VtResponder::new();
    // An unrecognized CSI, an OSC title, a DCS string, and a charset escape.
    let input = b"a\x1b[2Jb\x1b]0;title\x07c\x1bPdata\x1b\\d\x1b(Be".to_vec();
    let out = r.process(&input);
    assert_eq!(out.filtered, input);
    assert!(out.responses.is_empty());
}

#[test]
fn query_split_across_chunks() {
    // The query arrives as two chunks: nothing comes out until it is whole.
    let mut r = VtResponder::new();
    let first = r.process(b"\x1b[");
    assert!(first.filtered.is_empty());
    assert!(first.responses.is_empty());
    let second = r.process(b"6n");
    assert!(second.filtered.is_empty());
    assert_eq!(second.responses.len(), 1);
    assert_cursor_report(&second.responses[0]);
}

#[test]
fn chunking_does_not_change_output() {
    let stream = b"plain\x1b]0;ti\x07tle\x1b[2Jmore\x1b[5ntail";
    let mut whole = VtResponder::new();
    let expected = whole.process(stream);
    for cut in 0..=stream.len() {
        let mut split = VtResponder::new();
        let mut filtered = Vec::new();
        let mut responses = Vec::new();
        let a = split.process(&stream[..cut]);
        filtered.extend_from_slice(&a.filtered);
        responses.extend(a.responses);
        let b = split.process(&stream[cut..]);
        filtered.extend_from_slice(&b.filtered);
        responses.extend(b.responses);
        assert_eq!(filtered, expected.filtered, "cut at {}", cut);
        assert_eq!(responses, expected.responses, "cut at {}", cut);
    }
}

#[test]
fn finish_discards_unterminated_tail() {
    let mut r = VtResponder::new();
    let out = r.process(b"shown\x1b]never terminated");
    assert_eq!(out.filtered, b"shown");
    assert!(r.finish().is_empty());

    let mut r2 = VtResponder::new();
    let out2 = r2.process(b"\x1b");
    assert!(out2.filtered.is_empty());
    assert!(r2.finish().is_empty());
}

#[test]
fn parse_helpers_find_terminators() {
    let buf = b"\x1b[31mred".to_vec();
    assert_eq!(shellm::responder::parse_csi_end(&buf, 2), Some(4));
    let osc = b"\x1b]0;t\x07rest".to_vec();
    assert_eq!(shellm::responder::parse_osc_end(&osc, 2), Some(5));
    let st = b"\x1bPdata\x1b\\x".to_vec();
    assert_eq!(shellm::responder::parse_st_terminated(&st, 2), Some(7));
    let esc = b"\x1b(B".to_vec();
    assert_eq!(shellm::responder::parse_esc(&esc, 1), Some(2));
    assert_eq!(shellm::responder::parse_csi_end(&b"\x1b[12;3".to_vec(), 2), None);
}
