use ceph_doctor::monitor::fetch::{
    command_error_text, command_line, fetch_command, parse_command_error, parse_failure_text,
    InvalidCommandError,
};

fn words(text: &str) -> Vec<String> {
    text.split_whitespace().map(|word| word.to_string()).collect()
}

#[test]
fn the_command_asks_ceph_for_the_snapshot() {
    assert_eq!(fetch_command(None), words("ceph pg dump --format json-pretty"));
    assert_eq!(fetch_command(Some(&vec![])), words("ceph pg dump --format json-pretty"));
    assert_eq!(
        fetch_command(Some(&words("ssh host sudo"))),
        words("ssh host sudo ceph pg dump --format json-pretty")
    );
}

#[test]
fn the_command_line_is_what_the_user_would_type() {
    assert_eq!(command_line(None), "ceph pg dump --format json-pretty");
    assert_eq!(command_line(Some(&vec![])), "ceph pg dump --format json-pretty");
    assert_eq!(
        command_line(Some(&words("sudo"))),
        "sudo ceph pg dump --format json-pretty"
    );
    assert_eq!(
        command_line(Some(&words("kubectl exec pod --"))),
        "kubectl exec pod -- ceph pg dump --format json-pretty"
    );
}

#[test]
fn a_failed_run_is_written_in_one_line() {
    assert_eq!(
        command_error_text("ceph pg dump", Some(2), "out", "err"),
        "CommandError:ceph pg dump|2|out|err"
    );
    assert_eq!(command_error_text("c", None, "", ""), "CommandError:c|-1||");
    assert_eq!(command_error_text("c", Some(-15), "a\nb", "x"), "CommandError:c|-15|a\nb|x");
    assert_eq!(
        command_error_text("c", Some(i32::MIN), "", ""),
        "CommandError:c|-2147483648||"
    );
}

#[test]
fn a_failed_run_is_read_back() {
    let error = parse_command_error("ceph pg dump|2|out|err").unwrap();
    assert_eq!(error.command, "ceph pg dump");
    assert_eq!(error.exit_code, 2);
    assert_eq!(error.stdout, "out");
    assert_eq!(error.stderr, "err");
    assert_eq!(error.scroll_offset, 0);
    let empty = parse_command_error("|||").unwrap();
    assert_eq!(empty.command, "");
    assert_eq!(empty.exit_code, -1);
    assert_eq!(empty.stdout, "");
    assert_eq!(empty.stderr, "");
}

#[test]
fn writing_and_reading_give_the_run_back() {
    let line = command_error_text("ssh h ceph pg dump", Some(-7), "line one\nline two", "é ✓");
    let rest = line.strip_prefix("CommandError:").unwrap();
    let error = parse_command_error(rest).unwrap();
    assert_eq!(error.command, "ssh h ceph pg dump");
    assert_eq!(error.exit_code, -7);
    assert_eq!(error.stdout, "line one\nline two");
    assert_eq!(error.stderr, "é ✓");
}

#[test]
fn an_exit_code_that_is_no_number_is_unknown() {
    assert_eq!(parse_command_error("c|x|o|e").unwrap().exit_code, -1);
    assert_eq!(parse_command_error("c||o|e").unwrap().exit_code, -1);
    assert_eq!(parse_command_error("c| 1|o|e").unwrap().exit_code, -1);
    assert_eq!(parse_command_error("c|4294967296|o|e").unwrap().exit_code, -1);
    assert_eq!(parse_command_error("c|+3|o|e").unwrap().exit_code, 3);
}

#[test]
fn fields_after_the_fourth_are_left_out() {
    let error = parse_command_error("c|1|a|b|c|d").unwrap();
    assert_eq!(error.stdout, "a");
    assert_eq!(error.stderr, "b");
}

#[test]
fn a_line_with_fewer_than_four_fields_is_refused() {
    assert_eq!(parse_command_error("").err(), Some(InvalidCommandError));
    assert_eq!(parse_command_error("c").err(), Some(InvalidCommandError));
    assert_eq!(parse_command_error("c|1").err(), Some(InvalidCommandError));
    assert_eq!(parse_command_error("c|1|o").err(), Some(InvalidCommandError));
    assert_eq!(InvalidCommandError.message(), "Invalid command error format");
}

#[test]
fn a_snapshot_that_cannot_be_read_is_told_in_full() {
    assert_eq!(
        parse_failure_text("expected value at line 1", "  not json \n", "  \n"),
        "Failed to parse ceph command output as JSON: expected value at line 1\n\nCommand output was:\nnot json"
    );
    assert_eq!(
        parse_failure_text("eof", "", " warning \n"),
        "Failed to parse ceph command output as JSON: eof\n\nCommand output was:\n\n\nStderr output:\nwarning"
    );
}
