use shell_core::redirect::{
    check_for_append_stderr, check_for_append_stdout, check_for_stderr_redirect,
    check_for_stdout_redirect, extract_redirections, operator_kind, Command, CommandError, Mode,
    OpenPlan, Redirection, Stream,
};

fn words(items: &[&str]) -> Vec<String> {
    items.iter().map(|s| s.to_string()).collect()
}

fn redirection(stream: Stream, mode: Mode, target: &str) -> Redirection {
    Redirection { stream, mode, target: target.to_string() }
}

#[test]
fn operator_table() {
    assert_eq!(operator_kind(">"), Some((Stream::Stdout, Mode::Truncate)));
    assert_eq!(operator_kind("1>"), Some((Stream::Stdout, Mode::Truncate)));
    assert_eq!(operator_kind(">>"), Some((Stream::Stdout, Mode::Append)));
    assert_eq!(operator_kind("1>>"), Some((Stream::Stdout, Mode::Append)));
    assert_eq!(operator_kind("2>"), Some((Stream::Stderr, Mode::Truncate)));
    assert_eq!(operator_kind("2>>"), Some((Stream::Stderr, Mode::Append)));
}

#[test]
fn operator_table_has_nothing_else() {
    for w in ["", "<", "3>", ">>>", "2", "1", ">1", " >", "2>>>", "&>", "echo"] {
        assert_eq!(operator_kind(w), None);
    }
}

#[test]
fn check_for_stdout_redirect_finds_the_first() {
    assert_eq!(check_for_stdout_redirect(&words(&["a", ">", "f", "1>", "g"])), Ok(Some(1)));
    assert_eq!(check_for_stdout_redirect(&words(&["a", "b", "1>", "g"])), Ok(Some(2)));
    assert_eq!(check_for_stdout_redirect(&words(&[">", "f"])), Ok(Some(0)));
}

#[test]
fn check_for_stdout_redirect_without_one() {
    assert_eq!(check_for_stdout_redirect(&words(&["a", "b", "c"])), Ok(None));
    assert_eq!(check_for_stdout_redirect(&words(&["a"])), Ok(None));
    assert_eq!(check_for_stdout_redirect(&words(&["a", ">>", "f", "2>", "g"])), Ok(None));
}

#[test]
fn check_for_append_stdout_finds_the_first() {
    assert_eq!(
        check_for_append_stdout(&words(&["a", ">", "f", "1>>", "g", ">>", "h"])),
        Ok(Some(3))
    );
    assert_eq!(check_for_append_stdout(&words(&["a", ">>", "f"])), Ok(Some(1)));
    assert_eq!(check_for_append_stdout(&words(&["a", ">", "f"])), Ok(None));
}

#[test]
fn check_for_stderr_redirect_finds_the_first() {
    assert_eq!(
        check_for_stderr_redirect(&words(&["ls", "/x", "2>", "/tmp/err"])),
        Ok(Some(2))
    );
    assert_eq!(check_for_stderr_redirect(&words(&["ls", "2>>", "e", "x"])), Ok(None));
}

#[test]
fn check_for_append_stderr_finds_the_first() {
    assert_eq!(check_for_append_stderr(&words(&["ls", "2>>", "e", "2>>", "f"])), Ok(Some(1)));
    assert_eq!(check_for_append_stderr(&words(&["ls", "2>", "e"])), Ok(None));
}

#[test]
fn check_tells_a_missing_target_from_no_redirection() {
    assert_eq!(
        check_for_stderr_redirect(&words(&["/nonexistent", "2>"])),
        Err(CommandError::MissingTarget)
    );
    assert_eq!(check_for_stderr_redirect(&words(&["/nonexistent", "x"])), Ok(None));
    assert_eq!(check_for_stdout_redirect(&words(&[">"])), Err(CommandError::MissingTarget));
    assert_eq!(check_for_stdout_redirect(&words(&["a", "1>"])), Err(CommandError::MissingTarget));
    assert_eq!(check_for_append_stdout(&words(&["a", ">>"])), Err(CommandError::MissingTarget));
    assert_eq!(check_for_append_stdout(&words(&["1>>"])), Err(CommandError::MissingTarget));
    assert_eq!(check_for_append_stderr(&words(&["a", "b", "2>>"])), Err(CommandError::MissingTarget));
}

#[test]
fn check_goes_by_the_first_operator() {
    assert_eq!(check_for_stderr_redirect(&words(&["a", "2>", "f", "2>"])), Ok(Some(1)));
    assert_eq!(check_for_stdout_redirect(&words(&["a", ">", ">"])), Ok(Some(1)));
}

#[test]
fn check_of_a_command_without_arguments() {
    let none: Vec<String> = Vec::new();
    assert_eq!(check_for_stdout_redirect(&none), Ok(None));
    assert_eq!(check_for_append_stdout(&none), Ok(None));
    assert_eq!(check_for_stderr_redirect(&none), Ok(None));
    assert_eq!(check_for_append_stderr(&none), Ok(None));
}

#[test]
fn extract_without_redirections_keeps_the_words() {
    let c = extract_redirections(&words(&["echo", "hello", "world"])).unwrap();
    assert_eq!(c, Command { argv: words(&["echo", "hello", "world"]), redirections: vec![] });
}

#[test]
fn extract_takes_operator_and_target_out() {
    let c = extract_redirections(&words(&["ls", "/nonexistent", "2>", "/tmp/err"])).unwrap();
    assert_eq!(c.argv, words(&["ls", "/nonexistent"]));
    assert_eq!(c.redirections, vec![redirection(Stream::Stderr, Mode::Truncate, "/tmp/err")]);
}

#[test]
fn extract_keeps_words_behind_the_target() {
    let c = extract_redirections(&words(&["echo", "a", ">", "f", "b", "2>>", "g", "c"])).unwrap();
    assert_eq!(c.argv, words(&["echo", "a", "b", "c"]));
    assert_eq!(
        c.redirections,
        vec![
            redirection(Stream::Stdout, Mode::Truncate, "f"),
            redirection(Stream::Stderr, Mode::Append, "g"),
        ]
    );
}

#[test]
fn extract_takes_any_word_as_target() {
    let c = extract_redirections(&words(&["echo", ">", ">>", "x"])).unwrap();
    assert_eq!(c.argv, words(&["echo", "x"]));
    assert_eq!(c.redirections, vec![redirection(Stream::Stdout, Mode::Truncate, ">>")]);
}

#[test]
fn extract_refuses_operator_without_target() {
    assert_eq!(extract_redirections(&words(&["echo", "a", ">"])), Err(CommandError::MissingTarget));
    assert_eq!(extract_redirections(&words(&["2>>"])), Err(CommandError::MissingTarget));
    assert_eq!(
        extract_redirections(&words(&["a", ">", "f", "1>>"])),
        Err(CommandError::MissingTarget)
    );
}

#[test]
fn extract_refuses_command_without_words() {
    assert_eq!(extract_redirections(&words(&[])), Err(CommandError::EmptyCommand));
    assert_eq!(extract_redirections(&words(&[">", "f"])), Err(CommandError::EmptyCommand));
}

#[test]
fn last_redirection_of_a_stream_applies() {
    let c = extract_redirections(&words(&["e", ">", "a", "2>", "b", ">>", "c"])).unwrap();
    assert_eq!(
        c.redirection_for(Stream::Stdout),
        Some(&redirection(Stream::Stdout, Mode::Append, "c"))
    );
    assert_eq!(
        c.redirection_for(Stream::Stderr),
        Some(&redirection(Stream::Stderr, Mode::Truncate, "b"))
    );
}

#[test]
fn stream_without_redirection_has_none() {
    let c = extract_redirections(&words(&["e", ">", "a"])).unwrap();
    assert_eq!(c.redirection_for(Stream::Stderr), None);
    let c = extract_redirections(&words(&["e"])).unwrap();
    assert_eq!(c.redirection_for(Stream::Stdout), None);
}

#[test]
fn open_plans() {
    assert_eq!(
        Mode::Truncate.open_plan(),
        OpenPlan { create: true, truncate: true, append: false }
    );
    assert_eq!(Mode::Append.open_plan(), OpenPlan { create: true, truncate: false, append: true });
}

#[test]
fn command_error_messages() {
    assert_eq!(
        CommandError::MissingTarget.message(),
        "syntax error: redirection without a target"
    );
    assert_eq!(CommandError::EmptyCommand.message(), "syntax error: empty command");
}
