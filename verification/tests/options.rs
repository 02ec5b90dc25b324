use debug_blargg::options::{parse_args, parse_number, unknown_test, usage, Options};

fn args(words: &[&str]) -> Vec<String> {
    words.iter().map(|w| w.to_string()).collect()
}

fn options(words: &[&str]) -> Options {
    parse_args(&args(words)).unwrap()
}

#[test]
fn numbers_are_read_as_by_the_standard_library() {
    let words = [
        "0", "12", "+12", "007", "+", "", "-0", "-5", "++5", "5 ", " 5", "1x", "x", "1_000",
        "18446744073709551615", "18446744073709551616", "+18446744073709551615",
        "99999999999999999999999", "00000000000000000000000000018446744073709551615", "\u{0665}",
        "10000000000000000000", "18446744073709551609", "18446744073709551620",
    ];
    for w in words {
        assert_eq!(parse_number(w), w.parse::<u64>().ok(), "{}", w);
    }
    assert_eq!(parse_number("+12"), Some(12));
    assert_eq!(parse_number("18446744073709551615"), Some(u64::MAX));
    assert_eq!(parse_number("18446744073709551616"), None);
}

#[test]
fn a_test_must_be_named() {
    assert!(parse_args(&args(&[])).is_none());
    assert!(parse_args(&args(&["debug-blargg"])).is_none());
    assert!(parse_args(&args(&["debug-blargg", "halt_bug"])).is_some());
}

#[test]
fn flags_are_off_by_default() {
    let o = options(&["debug-blargg", "halt_bug"]);
    assert_eq!(o.test_name, "halt_bug");
    assert!(!o.config.tima_trace);
    assert!(!o.config.halt_trace);
    assert_eq!(o.config.max_instructions, 10_000_000);
}

#[test]
fn flags_come_in_any_order() {
    let o = options(&["p", "t", "--halt-trace", "--max", "5", "--tima-trace"]);
    assert!(o.config.tima_trace && o.config.halt_trace);
    assert_eq!(o.config.max_instructions, 5);
    let o = options(&["p", "--tima-trace"]);
    assert_eq!(o.test_name, "--tima-trace");
    assert!(o.config.tima_trace && !o.config.halt_trace);
    let o = options(&["--halt-trace", "t", "--tima-tracer"]);
    assert!(o.config.halt_trace && !o.config.tima_trace);
}

#[test]
fn only_the_first_max_counts() {
    assert_eq!(options(&["p", "t", "--max", "1", "--max", "2"]).config.max_instructions, 1);
    assert_eq!(options(&["p", "t", "--max", "x", "--max", "2"]).config.max_instructions, 10_000_000);
    assert_eq!(options(&["p", "t", "--max", "--max", "2"]).config.max_instructions, 10_000_000);
    assert_eq!(options(&["p", "t", "--max"]).config.max_instructions, 10_000_000);
    assert_eq!(options(&["p", "--max", "7"]).config.max_instructions, 7);
    assert_eq!(options(&["--max", "9"]).config.max_instructions, 9);
    assert_eq!(options(&["p", "t", "--max", "0"]).config.max_instructions, 0);
}

#[test]
fn messages() {
    assert_eq!(usage(), "Usage: debug-blargg <test> [--tima-trace] [--max N] [--halt-trace]");
    assert_eq!(unknown_test("nope"), "Unknown test: nope");
}

#[test]
fn written_numbers_read_back() {
    for n in [0u64, 9, 10, 17556, u64::MAX] {
        assert_eq!(parse_number(&n.to_string()), Some(n));
    }
}
