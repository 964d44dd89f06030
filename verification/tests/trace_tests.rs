use cachesim::{is_trace_line, parse_trace_line};

#[test]
fn modify_line_is_read() {
    assert_eq!(parse_trace_line(" M 0421c7f0,4"), Some(('M', 0x0421c7f0)));
}

#[test]
fn digits_of_either_case_are_read() {
    assert_eq!(parse_trace_line("L DeadBEEF,8"), Some(('L', 0xdeadbeef)));
    assert_eq!(parse_trace_line("S 0,1"), Some(('S', 0)));
}

#[test]
fn address_ends_at_comma_space_or_end() {
    assert_eq!(parse_trace_line(" L 1f"), Some(('L', 0x1f)));
    assert_eq!(parse_trace_line(" L 1f 8"), Some(('L', 0x1f)));
    assert_eq!(parse_trace_line(" L 1f,8,extra"), Some(('L', 0x1f)));
    assert_eq!(parse_trace_line("\t S \t 7ff0005c8,8\n"), Some(('S', 0x7ff0005c8)));
    assert_eq!(parse_trace_line("\u{a0}L\u{2003}10,4"), Some(('L', 0x10)));
}

#[test]
fn plus_sign_before_the_address_is_passed_over() {
    assert_eq!(parse_trace_line(" L +1f,8"), Some(('L', 0x1f)));
    assert!(!is_trace_line(" L +,8"));
    assert!(!is_trace_line(" L +"));
    assert!(!is_trace_line(" L ++1f,8"));
    assert!(!is_trace_line(" L -1f,8"));
    assert!(!is_trace_line(" L 1+f,8"));
}

#[test]
fn largest_address_is_read() {
    assert!(is_trace_line(" L ffffffffffffffff,8"));
    assert_eq!(parse_trace_line(" L ffffffffffffffff,8"), Some(('L', u64::MAX)));
    assert_eq!(parse_trace_line(" L 0000000000000000000000ff,8"), Some(('L', 0xff)));
}

#[test]
fn fetch_lines_are_well_formed_and_empty() {
    assert!(is_trace_line("I 12345678,4"));
    assert!(is_trace_line("I  004005b6,5"));
    assert!(is_trace_line("I"));
    assert_eq!(parse_trace_line("I"), None);
}

#[test]
fn well_formed_accesses_are_recognised() {
    assert!(is_trace_line(" L 04f6b868,8"));
    assert!(is_trace_line(" S 7ff0005c8,8"));
    assert!(is_trace_line(" M 10,4"));
    assert!(is_trace_line("L 10"));
}

#[test]
fn malformed_lines_are_recognised() {
    assert!(!is_trace_line(""));
    assert!(!is_trace_line("   "));
    assert!(!is_trace_line(" L"));
    assert!(!is_trace_line(" L "));
    assert!(!is_trace_line(" L ,4"));
    assert!(!is_trace_line(" L xyz,4"));
    assert!(!is_trace_line(" L 12g4,4"));
    assert!(!is_trace_line(" L 0x10,4"));
    assert!(!is_trace_line(" X 10,4"));
    assert!(!is_trace_line(" I 10,4"));
    assert!(!is_trace_line(" l 10,4"));
    assert!(!is_trace_line(" L 10000000000000000,8"));
    assert!(!is_trace_line(" L fffffffffffffffff,8"));
}
