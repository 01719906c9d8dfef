use clg::process::{collect_output, shell_invocation, ExecutionResult};

fn lines(texts: &[&str]) -> Vec<String> {
    texts.iter().map(|text| text.to_string()).collect()
}

#[test]
fn captured_lines_are_joined_by_line_feeds() {
    let buffer = lines(&["one", "two", "three"]);
    assert_eq!(collect_output(Some(&buffer)), b"one\ntwo\nthree".to_vec());
}

#[test]
fn one_captured_line_has_no_line_feed() {
    let buffer = lines(&["only"]);
    assert_eq!(collect_output(Some(&buffer)), b"only".to_vec());
}

#[test]
fn no_captured_line_gives_no_bytes() {
    let buffer = lines(&[]);
    assert_eq!(collect_output(Some(&buffer)), Vec::<u8>::new());
}

#[test]
fn empty_captured_lines_are_kept() {
    let buffer = lines(&["", "a", "", ""]);
    assert_eq!(collect_output(Some(&buffer)), b"\na\n\n".to_vec());
}

#[test]
fn unreadable_buffer_gives_no_bytes() {
    assert_eq!(collect_output(None), Vec::<u8>::new());
}

#[test]
fn captured_text_is_encoded_as_utf8() {
    let buffer = lines(&["\u{e9}", "\u{1f600}"]);
    assert_eq!(
        collect_output(Some(&buffer)),
        vec![0xc3, 0xa9, b'\n', 0xf0, 0x9f, 0x98, 0x80]
    );
}

#[test]
fn hundred_numbered_lines_come_out_in_order() {
    let buffer: Vec<String> = (0..100).map(|n| format!("out {}", n)).collect();
    let bytes = collect_output(Some(&buffer));
    let text = match String::from_utf8(bytes) {
        Ok(text) => text,
        Err(_) => panic!("no utf-8"),
    };
    let back: Vec<&str> = text.split('\n').collect();
    assert_eq!(back.len(), 100);
    for (n, line) in back.iter().enumerate() {
        assert_eq!(*line, format!("out {}", n));
    }
}

#[test]
fn command_goes_to_sh_as_one_argument() {
    let invocation = shell_invocation("make all; echo \"done\" | tee log", false);
    assert_eq!(invocation.program, "sh");
    assert_eq!(invocation.arguments, vec!["-c", "make all; echo \"done\" | tee log"]);
}

#[test]
fn command_goes_to_cmd_on_windows() {
    let invocation = shell_invocation("dir /b", true);
    assert_eq!(invocation.program, "cmd");
    assert_eq!(invocation.arguments, vec!["/C", "dir /b"]);
}

#[test]
fn command_that_could_not_be_started_has_failed() {
    let result = ExecutionResult::spawn_failed();
    assert_eq!(result.exit_status, None);
    assert!(result.captured_stdout.is_empty());
    assert!(result.captured_stderr.is_empty());
    assert!(!result.succeeded());
}

#[test]
fn exit_code_zero_is_success() {
    let out = lines(&["built"]);
    let result = ExecutionResult::completed(Some(0), Some(&out), None);
    assert_eq!(result.exit_status, Some(0));
    assert_eq!(result.captured_stdout, b"built".to_vec());
    assert!(result.captured_stderr.is_empty());
    assert!(result.succeeded());
}

#[test]
fn other_exit_codes_are_failures_with_their_output() {
    let out = lines(&["a", "b"]);
    let err = lines(&["warning", "error"]);
    let result = ExecutionResult::completed(Some(2), Some(&out), Some(&err));
    assert_eq!(result.exit_status, Some(2));
    assert_eq!(result.captured_stdout, b"a\nb".to_vec());
    assert_eq!(result.captured_stderr, b"warning\nerror".to_vec());
    assert!(!result.succeeded());
    assert!(!ExecutionResult::completed(Some(-1), None, None).succeeded());
}

#[test]
fn end_without_exit_code_is_a_failure() {
    assert!(!ExecutionResult::completed(None, None, None).succeeded());
}
