use se::program::{Event, Request};
use se::{Line, Program, Status};

struct Outcome {
    output: String,
    status: Status,
    count: usize,
    lines_read: usize,
}

/// Runs a script over numbered lines; the shell answers every command with
/// `shell`'s output and exit code.
fn drive(script: &str, print_all: bool, input: &[&str], shell: (&str, Option<i32>)) -> Outcome {
    let mut prog = Program::parse(script).unwrap();
    let mut output = String::new();
    let mut next = 0usize;
    let mut event = Event::Start(print_all);
    for _ in 0..100_000 {
        match prog.run(event) {
            Request::Read => {
                if next < input.len() {
                    next += 1;
                    event = Event::Input(Some(Line(next, input[next - 1].to_string())));
                } else {
                    event = Event::Input(None);
                }
            }
            Request::Write(t) => {
                output.push_str(&t);
                event = Event::Resume;
            }
            Request::Eval(_) => event = Event::Evaluated(shell.0.to_string(), shell.1),
            Request::Continue => event = Event::Resume,
            Request::Finish(status, count) => {
                return Outcome { output, status, count, lines_read: next };
            }
        }
    }
    panic!("the run did not finish");
}

fn numbers(n: usize) -> Vec<String> {
    (1..=n).map(|i| i.to_string()).collect()
}

fn as_strs(v: &[String]) -> Vec<&str> {
    v.iter().map(|s| s.as_str()).collect()
}

#[test]
fn delete_three_lines_end_to_end() {
    let lines = numbers(10);
    let out = drive("1d;3d;7d", true, &as_strs(&lines), ("", Some(0)));
    assert_eq!(out.output, "2\n4\n5\n6\n8\n9\n10\n");
    assert_eq!(out.count, 3);
    assert_eq!(out.status, Status::Normal);
}

#[test]
fn shell_exit_code_quits_with_it() {
    let lines = numbers(5);
    let out = drive("2e", true, &as_strs(&lines), ("out", Some(4)));
    assert_eq!(out.status, Status::Quit(4));
    assert_eq!(out.output, "1\nout\n");
    assert_eq!(out.lines_read, 2);
}

#[test]
fn shell_success_replaces_the_buffer() {
    let out = drive("e", true, &["echo hi"], ("hi\n", Some(0)));
    assert_eq!(out.status, Status::Normal);
    assert_eq!(out.output, "hi\n\n");
}

#[test]
fn shell_without_code_quits_with_zero() {
    let out = drive("e", false, &["a", "b"], ("", None));
    assert_eq!(out.status, Status::Quit(0));
    assert_eq!(out.lines_read, 1);
}

#[test]
fn loop_with_only_break_runs_once() {
    let out = drive(":{.};p", false, &["a", "b"], ("", Some(0)));
    assert_eq!(out.output, "a\nb\n");
    assert_eq!(out.status, Status::Normal);
}

#[test]
fn loop_runs_until_break() {
    // replaces the line by the next one until a line reads `stop`
    let out = drive(":{/stop/.;R};p", false, &["a", "b", "stop", "c"], ("", Some(0)));
    assert_eq!(out.output, "stop\nc\n");
}

#[test]
fn quit_stops_reading_and_runs_finalize() {
    let lines = numbers(10);
    let out = drive("3q5;$'end\\n'", true, &as_strs(&lines), ("", Some(0)));
    assert_eq!(out.output, "1\n2\n3\nend\n");
    assert_eq!(out.status, Status::Quit(5));
    assert_eq!(out.lines_read, 3);
}

#[test]
fn print_line_numbers() {
    let out = drive("=;'\\n'", false, &["a", "b"], ("", Some(0)));
    assert_eq!(out.output, "1\n2\n");
}

#[test]
fn line_number_above_nine() {
    let lines = numbers(12);
    let out = drive("12=", false, &as_strs(&lines), ("", Some(0)));
    assert_eq!(out.output, "12");
}

#[test]
fn escaped_print() {
    let out = drive("l", false, &["a\tb"], ("", Some(0)));
    assert_eq!(out.output, "a\\tb\n");
}

#[test]
fn read_replace_takes_next_line() {
    let out = drive("R", true, &["a", "b", "c"], ("", Some(0)));
    assert_eq!(out.output, "b\nc\n");
}

#[test]
fn read_replace_at_end_breaks() {
    let out = drive("R;p", false, &["a"], ("", Some(0)));
    assert_eq!(out.output, "");
    assert_eq!(out.status, Status::Break);
    assert_eq!(out.count, 1);
}

#[test]
fn hold_across_lines() {
    let out = drive("x;$g;$p", false, &["a", "b", "c"], ("", Some(0)));
    assert_eq!(out.output, "c\n");
}

#[test]
fn regex_range_prints_block() {
    let out = drive("/start/-/end/p", false, &["x", "start", "y", "end", "z"], ("", Some(0)));
    assert_eq!(out.output, "start\ny\nend\n");
    assert_eq!(out.count, 3);
}

#[test]
fn count_without_print_all() {
    let out = drive("/a/", false, &["a", "b", "ab"], ("", Some(0)));
    assert_eq!(out.output, "");
    assert_eq!(out.count, 2);
}

#[test]
fn empty_input_runs_finalize_only() {
    let out = drive("p;$'done'", true, &[], ("", Some(0)));
    assert_eq!(out.output, "done");
    assert_eq!(out.count, 0);
}

#[test]
fn finished_run_keeps_answering() {
    let mut prog = Program::parse("").unwrap();
    assert_eq!(prog.run(Event::Start(false)), Request::Read);
    assert_eq!(prog.run(Event::Input(None)), Request::Continue);
    assert_eq!(prog.run(Event::Resume), Request::Finish(Status::Normal, 0));
    assert_eq!(prog.run(Event::Resume), Request::Finish(Status::Normal, 0));
}

#[test]
fn waiting_for_a_line_repeats_the_request() {
    let mut prog = Program::parse("r").unwrap();
    prog.run(Event::Start(false));
    prog.run(Event::Input(Some(Line(1, "a".to_string()))));
    prog.run(Event::Resume);
    assert_eq!(prog.run(Event::Resume), Request::Read);
    assert_eq!(prog.run(Event::Resume), Request::Read);
}
