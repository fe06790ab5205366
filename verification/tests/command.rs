use manaudit::command::{compose, decimal_of, describe, trimmed, CommandOutput, OutputExt};

fn output(signal: Option<i32>, code: Option<i32>, stdout: &[u8], stderr: &[u8]) -> CommandOutput {
    CommandOutput { signal, code, stdout: stdout.to_vec(), stderr: stderr.to_vec() }
}

fn trim(s: &str) -> String {
    let chars: Vec<char> = s.chars().collect();
    trimmed(&chars).iter().collect()
}

#[test]
fn exit_code_and_errors() {
    let o = output(None, Some(1), b"", b"pkgrepo: no such repository\n");
    assert_eq!(o.info(), "exit code 1: pkgrepo: no such repository");
}

#[test]
fn output_is_used_where_there_are_no_errors() {
    let o = output(None, Some(2), b"  usage: pkgrepo\n", b" \n\t");
    assert_eq!(o.info(), "exit code 2: usage: pkgrepo");
}

#[test]
fn errors_come_before_output() {
    let o = output(None, Some(3), b"out", b"err");
    assert_eq!(o.info(), "exit code 3: err");
}

#[test]
fn signal_and_code_and_nothing_written() {
    assert_eq!(output(Some(9), None, b"", b"").info(), "killed by signal 9");
    assert_eq!(output(Some(15), Some(143), b"", b"").info(), "killed by signal 15, exit code 143");
    assert_eq!(output(Some(11), None, b"", b"core").info(), "killed by signal 11: core");
    assert_eq!(output(None, Some(0), b"", b"").info(), "exit code 0");
    assert_eq!(output(None, None, b"", b"").info(), "");
    assert_eq!(output(None, None, b"only text", b"").info(), "only text");
}

#[test]
fn bytes_that_are_no_text_are_replaced() {
    let o = output(None, Some(1), b"", b"bad \xff byte");
    assert_eq!(o.info(), "exit code 1: bad \u{fffd} byte");
}

#[test]
fn numbers_in_decimal() {
    assert_eq!(decimal_of(0), "0");
    assert_eq!(decimal_of(7), "7");
    assert_eq!(decimal_of(10), "10");
    assert_eq!(decimal_of(255), "255");
    assert_eq!(decimal_of(-1), "-1");
    assert_eq!(decimal_of(-120), "-120");
    assert_eq!(decimal_of(i32::MAX), "2147483647");
    assert_eq!(decimal_of(i32::MIN), "-2147483648");
    for n in [1, 9, 99, 100, 101, 1000, 65535, -65536, 123456789] {
        assert_eq!(decimal_of(n), n.to_string());
    }
}

#[test]
fn white_space_goes_at_both_ends_only() {
    assert_eq!(trim("  a b \t\n"), "a b");
    assert_eq!(trim("a"), "a");
    assert_eq!(trim(""), "");
    assert_eq!(trim(" \n "), "");
    assert_eq!(trim("\u{a0}x\u{2003}"), "x");
    for s in ["  x  y ", "\r\nz", "q\u{3000}", "_ _"] {
        assert_eq!(trim(s), s.trim());
    }
}

#[test]
fn compose_shows_errors_or_else_output() {
    assert_eq!(compose(None, Some(1), "out", "err"), "exit code 1: err");
    assert_eq!(compose(None, Some(1), "out", ""), "exit code 1: out");
    assert_eq!(compose(None, Some(1), "", ""), "exit code 1");
    assert_eq!(compose(Some(9), Some(137), "", " e "), "killed by signal 9, exit code 137:  e ");
    assert_eq!(compose(Some(2), None, "o", ""), "killed by signal 2: o");
    assert_eq!(compose(None, None, "o", ""), "o");
    assert_eq!(compose(None, None, "", ""), "");
    assert_eq!(compose(None, Some(-1), "", "x"), "exit code -1: x");
}

#[test]
fn describe_trims_before_it_chooses() {
    assert_eq!(describe(None, Some(1), " out\n", " \t\n"), "exit code 1: out");
    assert_eq!(describe(None, Some(1), " out\n", " err \n"), "exit code 1: err");
    assert_eq!(describe(Some(15), None, " ", ""), "killed by signal 15");
}

#[test]
fn success_is_exit_code_zero() {
    assert!(output(None, Some(0), b"", b"").succeeded());
    assert!(output(None, Some(0), b"", b"warning").succeeded());
    assert!(!output(None, Some(1), b"", b"").succeeded());
    assert!(!output(Some(9), None, b"", b"").succeeded());
    assert!(!output(None, None, b"", b"").succeeded());
}

#[test]
fn failure_names_the_action_and_the_repository() {
    let o = output(None, Some(1), b"", b"no such repository\n");
    assert_eq!(
        o.failure("pkgrepo list", "/repo"),
        Some("pkgrepo list (/repo): exit code 1: no such repository".to_string())
    );
    assert_eq!(
        output(Some(9), None, b"", b"").failure("pkgrepo contents", "r"),
        Some("pkgrepo contents (r): killed by signal 9".to_string())
    );
    assert_eq!(output(None, Some(0), b"", b"noise").failure("pkgrepo list", "/repo"), None);
}
