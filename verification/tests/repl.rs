use shell_core::builtins::{plan_command, Invocation, Output};
use shell_core::redirect::{Command, Mode, Redirection, Stream};
use shell_core::repl::{history_entries, next_step, prompt, route_line, LoopStep, ReadOutcome, Route};

fn words(items: &[&str]) -> Vec<String> {
    items.iter().map(|s| s.to_string()).collect()
}

fn plain(items: &[&str]) -> Command {
    Command { argv: words(items), redirections: vec![] }
}

fn echoed(line: &str) -> String {
    match route_line(line) {
        Route::Single(c) => match plan_command(&c.argv, None) {
            Invocation::Report(Output { stream: Stream::Stdout, text, success: true }) => text,
            other => panic!("{:?}", other),
        },
        other => panic!("{:?}", other),
    }
}

#[test]
fn prompt_is_dollar_space() {
    assert_eq!(prompt(), "$ ");
}

#[test]
fn line_is_run_without_the_whitespace_around_it() {
    assert_eq!(next_step(&ReadOutcome::Line("  echo hi \n".into())), LoopStep::Run("echo hi".into()));
    assert_eq!(next_step(&ReadOutcome::Line("ls".into())), LoopStep::Run("ls".into()));
}

#[test]
fn empty_line_is_skipped() {
    assert_eq!(next_step(&ReadOutcome::Line("".into())), LoopStep::Again);
    assert_eq!(next_step(&ReadOutcome::Line("  \t \n".into())), LoopStep::Again);
}

#[test]
fn interrupt_gives_the_line_up() {
    assert_eq!(next_step(&ReadOutcome::Interrupted), LoopStep::Again);
}

#[test]
fn end_of_input_leaves() {
    assert_eq!(next_step(&ReadOutcome::Eof), LoopStep::Leave);
}

#[test]
fn editor_failure_aborts() {
    assert_eq!(next_step(&ReadOutcome::Failed), LoopStep::Abort);
}

#[test]
fn echo_hello_world() {
    assert_eq!(echoed("echo hello world"), "hello world\n");
}

#[test]
fn echo_with_quotes() {
    assert_eq!(echoed("echo 'a  b'  \"c d\""), "a  b c d\n");
}

#[test]
fn echo_escaped_dollar() {
    assert_eq!(echoed("echo \\$HOME"), "$HOME\n");
}

#[test]
fn echo_escaped_quote_in_double_quotes() {
    assert_eq!(echoed("echo \"a\\\"b\""), "a\"b\n");
}

#[test]
fn stderr_redirection_of_a_program() {
    let route = route_line("ls /nonexistent 2> /tmp/err");
    let expected = Command {
        argv: words(&["ls", "/nonexistent"]),
        redirections: vec![Redirection {
            stream: Stream::Stderr,
            mode: Mode::Truncate,
            target: "/tmp/err".into(),
        }],
    };
    assert_eq!(route, Route::Single(expected.clone()));
    assert_eq!(plan_command(&expected.argv, None), Invocation::Run);
    assert_eq!(expected.redirection_for(Stream::Stdout), None);
    assert_eq!(expected.redirection_for(Stream::Stderr).map(|r| r.target.as_str()), Some("/tmp/err"));
}

#[test]
fn pipeline_of_three() {
    assert_eq!(
        route_line("echo one | cat | cat"),
        Route::Pipeline(vec![plain(&["echo", "one"]), plain(&["cat"]), plain(&["cat"])])
    );
}

#[test]
fn pipeline_stage_with_quotes_and_redirection() {
    assert_eq!(
        route_line("echo 'a  |  b' | cat >> out"),
        Route::Pipeline(vec![
            plain(&["echo", "a  |  b"]),
            Command {
                argv: words(&["cat"]),
                redirections: vec![Redirection {
                    stream: Stream::Stdout,
                    mode: Mode::Append,
                    target: "out".into(),
                }],
            },
        ])
    );
}

#[test]
fn quoted_pipe_is_one_command() {
    assert_eq!(route_line("echo 'a|b'"), Route::Single(plain(&["echo", "a|b"])));
    assert_eq!(route_line("echo a\\|b"), Route::Single(plain(&["echo", "a|b"])));
}

#[test]
fn empty_stage_is_refused() {
    let refused = Route::Rejected("syntax error: empty command in pipeline".into());
    assert_eq!(route_line("cmd ||"), refused);
    assert_eq!(route_line("| cmd"), refused);
    assert_eq!(route_line("cmd |"), refused);
}

#[test]
fn stage_without_words_is_refused() {
    assert_eq!(route_line("echo a | ''"), Route::Rejected("syntax error: empty command".into()));
    assert_eq!(route_line("> f | cat"), Route::Rejected("syntax error: empty command".into()));
}

#[test]
fn missing_target_is_refused() {
    let refused = Route::Rejected("syntax error: redirection without a target".into());
    assert_eq!(route_line("echo a >"), refused);
    assert_eq!(route_line("echo a | cat 2>"), refused);
    assert_eq!(route_line("echo a > | cat"), refused);
}

#[test]
fn first_error_of_a_pipeline_is_reported() {
    assert_eq!(
        route_line("a > | ''"),
        Route::Rejected("syntax error: redirection without a target".into())
    );
    assert_eq!(route_line("'' | a >"), Route::Rejected("syntax error: empty command".into()));
}

#[test]
fn line_without_words_is_refused() {
    assert_eq!(route_line(""), Route::Rejected("syntax error: empty command".into()));
    assert_eq!(route_line("''"), Route::Rejected("syntax error: empty command".into()));
}

#[test]
fn history_file_lines() {
    assert_eq!(history_entries("echo a\nls -l\n"), words(&["echo a", "ls -l"]));
    assert_eq!(history_entries("echo a\nls -l"), words(&["echo a", "ls -l"]));
    assert_eq!(history_entries("  x  \r\n\ny\n"), words(&["x", "", "y"]));
    assert_eq!(history_entries(""), Vec::<String>::new());
    assert_eq!(history_entries("\n"), words(&[""]));
}
