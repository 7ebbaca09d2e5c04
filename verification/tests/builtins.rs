use shell_core::builtins::{
    cd_failure, classify, command_not_found, history_listing, plan_command, text_of_lines,
    type_needs_search, type_report, working_directory_report, Builtin, HistoryRequest, Invocation,
    Output,
};
use shell_core::number::{padded_decimal, parse_number, parse_unsigned};
use shell_core::redirect::Stream;

fn words(items: &[&str]) -> Vec<String> {
    items.iter().map(|s| s.to_string()).collect()
}

fn out(text: &str) -> Output {
    Output { stream: Stream::Stdout, text: text.to_string(), success: true }
}

fn err(text: &str) -> Output {
    Output { stream: Stream::Stderr, text: text.to_string(), success: false }
}

#[test]
fn classify_builtins() {
    assert_eq!(classify("exit"), Some(Builtin::Exit));
    assert_eq!(classify("echo"), Some(Builtin::Echo));
    assert_eq!(classify("pwd"), Some(Builtin::Pwd));
    assert_eq!(classify("cd"), Some(Builtin::Cd));
    assert_eq!(classify("type"), Some(Builtin::Type));
    assert_eq!(classify("history"), Some(Builtin::History));
}

#[test]
fn classify_programs() {
    for name in ["ls", "cat", "", "Echo", "echo ", "/bin/echo", "grep"] {
        assert_eq!(classify(name), None);
    }
}

#[test]
fn echo_joins_with_single_spaces() {
    assert_eq!(
        plan_command(&words(&["echo", "hello", "world"]), None),
        Invocation::Report(out("hello world\n"))
    );
    assert_eq!(
        plan_command(&words(&["echo", "a  b", "c d"]), None),
        Invocation::Report(out("a  b c d\n"))
    );
    assert_eq!(plan_command(&words(&["echo"]), None), Invocation::Report(out("\n")));
    assert_eq!(plan_command(&words(&["echo", "x"]), None), Invocation::Report(out("x\n")));
}

#[test]
fn exit_status_default_and_given() {
    assert_eq!(plan_command(&words(&["exit"]), None), Invocation::Exit(0));
    assert_eq!(plan_command(&words(&["exit", "0"]), None), Invocation::Exit(0));
    assert_eq!(plan_command(&words(&["exit", "3"]), None), Invocation::Exit(3));
    assert_eq!(plan_command(&words(&["exit", "007"]), None), Invocation::Exit(7));
    assert_eq!(plan_command(&words(&["exit", "42", "x"]), None), Invocation::Exit(42));
    assert_eq!(plan_command(&words(&["exit", "-1"]), None), Invocation::Exit(-1));
    assert_eq!(plan_command(&words(&["exit", "+1"]), None), Invocation::Exit(1));
    assert_eq!(plan_command(&words(&["exit", "2147483647"]), None), Invocation::Exit(i32::MAX));
    assert_eq!(plan_command(&words(&["exit", "-2147483648"]), None), Invocation::Exit(i32::MIN));
}

#[test]
fn exit_status_of_anything_else_is_zero() {
    for arg in ["abc", "", "-", "+", "1x", "+-1", "-+1", "2147483648", "-2147483649", " 1", "--1"] {
        assert_eq!(plan_command(&words(&["exit", arg]), None), Invocation::Exit(0));
    }
}

#[test]
fn pwd_plan() {
    assert_eq!(plan_command(&words(&["pwd"]), None), Invocation::Pwd);
    assert_eq!(plan_command(&words(&["pwd", "x"]), Some("/h")), Invocation::Pwd);
}

#[test]
fn cd_goes_home_without_argument_or_with_tilde() {
    assert_eq!(plan_command(&words(&["cd"]), Some("/home/u")), Invocation::Cd("/home/u".into()));
    assert_eq!(
        plan_command(&words(&["cd", "~"]), Some("/home/u")),
        Invocation::Cd("/home/u".into())
    );
}

#[test]
fn cd_goes_to_its_argument() {
    assert_eq!(plan_command(&words(&["cd", "/tmp"]), Some("/home/u")), Invocation::Cd("/tmp".into()));
    assert_eq!(plan_command(&words(&["cd", "~/x"]), Some("/home/u")), Invocation::Cd("~/x".into()));
    assert_eq!(plan_command(&words(&["cd", "a", "b"]), None), Invocation::Cd("a".into()));
}

#[test]
fn cd_without_home() {
    assert_eq!(
        plan_command(&words(&["cd"]), None),
        Invocation::Report(err("cd: HOME not set\n"))
    );
    assert_eq!(
        plan_command(&words(&["cd", "~"]), None),
        Invocation::Report(err("cd: HOME not set\n"))
    );
}

#[test]
fn cd_failure_goes_to_stdout() {
    assert_eq!(
        cd_failure("/does/not/exist"),
        Output {
            stream: Stream::Stdout,
            text: "cd: /does/not/exist: No such file or directory\n".to_string(),
            success: false,
        }
    );
}

#[test]
fn type_plan() {
    assert_eq!(plan_command(&words(&["type", "echo"]), None), Invocation::Type("echo".into()));
    assert_eq!(plan_command(&words(&["type", "a", "b"]), None), Invocation::Type("a".into()));
    assert_eq!(plan_command(&words(&["type"]), None), Invocation::Nothing);
}

#[test]
fn type_of_a_builtin() {
    assert_eq!(type_report("echo", None), out("echo is a shell builtin\n"));
    assert_eq!(type_report("history", None), out("history is a shell builtin\n"));
    assert_eq!(type_report("cd", Some("/usr/bin/cd")), out("cd is a shell builtin\n"));
    assert!(!type_needs_search("exit"));
}

#[test]
fn type_of_a_program() {
    assert_eq!(type_report("ls", Some("/bin/ls")), out("ls is /bin/ls\n"));
    assert_eq!(type_report("cat", Some("/usr/bin/cat")), out("cat is /usr/bin/cat\n"));
    assert!(type_needs_search("ls"));
    assert!(type_needs_search("cat"));
}

#[test]
fn type_of_an_unknown_name() {
    assert_eq!(
        type_report("nope", None),
        Output { stream: Stream::Stderr, text: "nope: not found\n".to_string(), success: true }
    );
    assert!(type_needs_search("nope"));
}

#[test]
fn program_plan() {
    assert_eq!(plan_command(&words(&["ls", "-l"]), None), Invocation::Run);
    assert_eq!(plan_command(&words(&["cat"]), None), Invocation::Run);
    assert_eq!(plan_command(&words(&["./a.out"]), None), Invocation::Run);
}

#[test]
fn no_words_plan() {
    assert_eq!(plan_command(&words(&[]), None), Invocation::Nothing);
}

#[test]
fn command_not_found_goes_to_stderr() {
    assert_eq!(command_not_found("frob"), err("frob: command not found\n"));
}

#[test]
fn working_directory_line() {
    assert_eq!(working_directory_report("/tmp/x"), out("/tmp/x\n"));
}

#[test]
fn history_requests() {
    let plan = |a: &[&str]| match plan_command(&words(a), None) {
        Invocation::History(r) => r,
        other => panic!("{:?}", other),
    };
    assert_eq!(plan(&["history"]), HistoryRequest::ShowAll);
    assert_eq!(plan(&["history", ""]), HistoryRequest::ShowAll);
    assert_eq!(plan(&["history", "3"]), HistoryRequest::ShowLast(3));
    assert_eq!(plan(&["history", "0"]), HistoryRequest::ShowLast(0));
    assert_eq!(plan(&["history", "+5"]), HistoryRequest::ShowLast(5));
    assert_eq!(plan(&["history", "+0"]), HistoryRequest::ShowLast(0));
    assert_eq!(plan(&["history", "-r", "f"]), HistoryRequest::Read("f".into()));
    assert_eq!(plan(&["history", "-w", "g"]), HistoryRequest::Write("g".into()));
    assert_eq!(plan(&["history", "-a", "h", "x"]), HistoryRequest::Append("h".into()));
}

#[test]
fn history_requests_that_make_no_sense() {
    let refused = Invocation::Report(err("history: invalid argument\n"));
    for arg in ["-r", "-w", "-a", "abc", "-3", "-0", "+", "++5", "5+", "99999999999999999999999"] {
        assert_eq!(plan_command(&words(&["history", arg]), None), refused);
    }
}

#[test]
fn history_lines_are_numbered_from_one() {
    let entries = words(&["echo a", "ls", "pwd"]);
    assert_eq!(
        history_listing(&entries, None),
        words(&["   1  echo a", "   2  ls", "   3  pwd"])
    );
}

#[test]
fn history_last_entries_keep_their_numbers() {
    let entries = words(&["echo a", "ls", "pwd", "cd /"]);
    assert_eq!(history_listing(&entries, Some(2)), words(&["   3  pwd", "   4  cd /"]));
    assert_eq!(history_listing(&entries, Some(0)), Vec::<String>::new());
    assert_eq!(history_listing(&entries, Some(4)).len(), 4);
    assert_eq!(history_listing(&entries, Some(9)), history_listing(&entries, None));
    assert_eq!(history_listing(&Vec::new(), Some(3)), Vec::<String>::new());
}

#[test]
fn history_numbers_wider_than_the_padding() {
    let entries: Vec<String> = (0..10001).map(|i| format!("c{}", i)).collect();
    let lines = history_listing(&entries, Some(3));
    assert_eq!(lines, words(&["9999  c9998", "10000  c9999", "10001  c10000"]));
}

#[test]
fn lines_end_with_line_breaks() {
    assert_eq!(text_of_lines(&words(&["a", "b c"])), "a\nb c\n");
    assert_eq!(text_of_lines(&words(&[])), "");
    assert_eq!(text_of_lines(&words(&[""])), "\n");
}

#[test]
fn padded_numbers() {
    assert_eq!(padded_decimal(0, 4), "   0");
    assert_eq!(padded_decimal(7, 4), "   7");
    assert_eq!(padded_decimal(42, 4), "  42");
    assert_eq!(padded_decimal(1234, 4), "1234");
    assert_eq!(padded_decimal(12345, 4), "12345");
    assert_eq!(padded_decimal(10, 0), "10");
    assert_eq!(padded_decimal(100, 1), "100");
    assert_eq!(padded_decimal(usize::MAX, 0), usize::MAX.to_string());
}

#[test]
fn parsed_numbers() {
    assert_eq!(parse_number("0", 10), Some(0));
    assert_eq!(parse_number("10", 10), Some(10));
    assert_eq!(parse_number("0010", 10), Some(10));
    assert_eq!(parse_number("18446744073709551615", u64::MAX), Some(u64::MAX));
}

#[test]
fn numbers_that_do_not_parse() {
    assert_eq!(parse_number("11", 10), None);
    assert_eq!(parse_number("", 10), None);
    assert_eq!(parse_number("1a", 10), None);
    assert_eq!(parse_number("-1", 10), None);
    assert_eq!(parse_number("+1", 10), None);
    assert_eq!(parse_number("\u{661}", 10), None);
    assert_eq!(parse_number("18446744073709551616", u64::MAX), None);
    assert_eq!(parse_number("99999999999999999999", u64::MAX), None);
    assert_eq!(parse_number("5", 0), None);
}

#[test]
fn unsigned_numbers_agree_with_the_standard_parse() {
    for text in [
        "", "0", "5", "+5", "+0", "+", "-", "-0", "-5", "++5", "+-5", "5+", " 5", "5 ", "05",
        "+05", "1_0", "0x10", "\u{661}", "18446744073709551615", "+18446744073709551615",
        "18446744073709551616", "a", "+a",
    ] {
        assert_eq!(parse_unsigned(text, u64::MAX), text.parse::<u64>().ok());
    }
}

#[test]
fn unsigned_numbers_keep_to_the_limit() {
    assert_eq!(parse_unsigned("+10", 10), Some(10));
    assert_eq!(parse_unsigned("+11", 10), None);
    assert_eq!(parse_unsigned("11", 10), None);
}
