use shell_core::pipeline::{has_pipeline, split_pipeline, PipelineError};

fn words(items: &[&str]) -> Vec<String> {
    items.iter().map(|s| s.to_string()).collect()
}

#[test]
fn pipe_is_found_outside_quotes() {
    assert!(has_pipeline("echo one | cat"));
    assert!(has_pipeline("a|b"));
    assert!(has_pipeline("|"));
}

#[test]
fn pipe_is_not_found_without_one() {
    assert!(!has_pipeline(""));
    assert!(!has_pipeline("echo hello"));
}

#[test]
fn pipe_in_quotes_is_no_operator() {
    assert!(!has_pipeline("echo 'a|b'"));
    assert!(!has_pipeline("echo \"a|b\""));
    assert!(!has_pipeline("echo 'a|b"));
    assert!(has_pipeline("echo 'a' | cat"));
    assert!(has_pipeline("echo \"a\" | 'b'"));
}

#[test]
fn escaped_pipe_is_no_operator() {
    assert!(!has_pipeline(r"echo a\|b"));
    assert!(has_pipeline(r"echo a\\|b"));
    assert!(!has_pipeline(r#"echo "a\"|b""#));
    assert!(has_pipeline(r"echo 'a\'|b"));
}

#[test]
fn split_three_stages() {
    assert_eq!(split_pipeline("echo one | cat | cat"), Ok(words(&["echo one", "cat", "cat"])));
}

#[test]
fn split_trims_each_stage() {
    assert_eq!(split_pipeline("  a  b |\tc\t"), Ok(words(&["a  b", "c"])));
}

#[test]
fn split_keeps_quotes_and_escapes_as_they_stand() {
    assert_eq!(
        split_pipeline(r#"echo 'a | b' "c|d" e\|f | cat"#),
        Ok(words(&[r#"echo 'a | b' "c|d" e\|f"#, "cat"]))
    );
}

#[test]
fn split_line_without_pipe_is_one_command() {
    assert_eq!(split_pipeline("echo hello"), Ok(words(&["echo hello"])));
    assert_eq!(split_pipeline(" echo 'a|b' "), Ok(words(&["echo 'a|b'"])));
}

#[test]
fn split_blank_line_has_no_commands() {
    assert_eq!(split_pipeline(""), Ok(Vec::new()));
    assert_eq!(split_pipeline("   "), Ok(Vec::new()));
}

#[test]
fn split_refuses_empty_stages() {
    assert_eq!(split_pipeline("cmd ||"), Err(PipelineError::EmptyStage(1)));
    assert_eq!(split_pipeline("| cmd"), Err(PipelineError::EmptyStage(0)));
    assert_eq!(split_pipeline("cmd |"), Err(PipelineError::EmptyStage(1)));
    assert_eq!(split_pipeline("a | b |  | c |"), Err(PipelineError::EmptyStage(2)));
    assert_eq!(split_pipeline("|"), Err(PipelineError::EmptyStage(0)));
}

#[test]
fn split_agrees_with_has_pipeline() {
    for line in ["a", "a | b", "'a|b'", "a\\|b", "a | b | c", "\"x\" | y"] {
        let parts = split_pipeline(line).unwrap();
        assert_eq!(parts.len() >= 2, has_pipeline(line));
        assert!(parts.iter().all(|p| !p.is_empty()));
    }
}

#[test]
fn split_stages_joined_with_bars_give_the_line() {
    let line = "a 'x|y'|b|c";
    assert_eq!(split_pipeline(line).unwrap().join("|"), line);
}

#[test]
fn pipeline_error_message() {
    assert_eq!(PipelineError::EmptyStage(0).message(), "syntax error: empty command in pipeline");
}
