use shellm::geometry::{
    approx_char_width, approx_display_width, normalize_to_single_line, truncate_tail_by_width,
    wrap_rows,
};

#[test]
fn char_widths() {
    assert_eq!(approx_char_width('a'), 1);
    assert_eq!(approx_char_width(' '), 1);
    assert_eq!(approx_char_width('\n'), 0);
    assert_eq!(approx_char_width('\x07'), 0);
    assert_eq!(approx_char_width('\x7f'), 0);
    assert_eq!(approx_char_width('你'), 2);
    assert_eq!(approx_char_width('é'), 2);
}

#[test]
fn display_widths() {
    assert_eq!(approx_display_width(""), 0);
    assert_eq!(approx_display_width("abc"), 3);
    assert_eq!(approx_display_width("你好"), 4);
    assert_eq!(approx_display_width("a你b"), 4);
    assert_eq!(approx_display_width("a\x1bb"), 2);
}

#[test]
fn wrap_rows_is_ceiling() {
    // width 10 over 5 columns: exactly 2 rows
    assert_eq!(wrap_rows("abcdefghij", 5), 2);
    // width 11 over 5 columns: 3 rows
    assert_eq!(wrap_rows("abcdefghijk", 5), 3);
    // width 4 over 5 columns: 1 row
    assert_eq!(wrap_rows("abcd", 5), 1);
    // zero columns count as one row
    assert_eq!(wrap_rows("whatever", 0), 1);
    // empty text still occupies one row
    assert_eq!(wrap_rows("", 5), 1);
    // wide characters count double
    assert_eq!(wrap_rows("你好你好你", 4), 3);
}

#[test]
fn truncate_tail_keeps_longest_fitting_suffix() {
    assert_eq!(truncate_tail_by_width("hello", 3), "llo");
    assert_eq!(truncate_tail_by_width("hello", 10), "hello");
    assert_eq!(truncate_tail_by_width("hello", 0), "");
    // never exceeds the budget, never splits a wide character
    assert_eq!(truncate_tail_by_width("a你b", 3), "你b");
    assert_eq!(truncate_tail_by_width("a你b", 2), "b");
    assert_eq!(truncate_tail_by_width("你你", 3), "你");
}

#[test]
fn normalize_flattens_and_trims() {
    assert_eq!(normalize_to_single_line(" a\nb "), "a b");
    assert_eq!(normalize_to_single_line("x\r\ny"), "x  y");
    assert_eq!(normalize_to_single_line("\n\n"), "");
}
