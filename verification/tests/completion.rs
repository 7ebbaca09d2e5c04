use shell_core::completion::{
    matches_listing, Candidate, Completion, Feedback, ShellCompleter,
};
use shell_core::order::{select_matches, starts_with, text_less};

fn words(items: &[&str]) -> Vec<String> {
    items.iter().map(|s| s.to_string()).collect()
}

fn spaced(name: &str) -> Candidate {
    Candidate { display: name.to_string(), replacement: format!("{} ", name) }
}

#[test]
fn common_prefix_of_no_strings() {
    assert_eq!(ShellCompleter::find_longest_common_prefix(&[]), (String::new(), 0));
}

#[test]
fn common_prefix_of_one_string_is_the_string() {
    assert_eq!(
        ShellCompleter::find_longest_common_prefix(&words(&["hello"])),
        ("hello".to_string(), 1)
    );
}

#[test]
fn common_prefix_of_several_strings() {
    assert_eq!(
        ShellCompleter::find_longest_common_prefix(&words(&["xyz_foo", "xyz_bar", "xyz_baz"])),
        ("xyz_".to_string(), 3)
    );
    assert_eq!(
        ShellCompleter::find_longest_common_prefix(&words(&["abc", "abcd", "ab"])),
        ("ab".to_string(), 3)
    );
    assert_eq!(
        ShellCompleter::find_longest_common_prefix(&words(&["abc", "xbc"])),
        (String::new(), 2)
    );
    assert_eq!(
        ShellCompleter::find_longest_common_prefix(&words(&["", "abc"])),
        (String::new(), 2)
    );
}

#[test]
fn common_prefix_counts_different_strings() {
    assert_eq!(
        ShellCompleter::find_longest_common_prefix(&words(&["aa", "ab", "aa", "ab", "aa"])),
        ("a".to_string(), 2)
    );
    assert_eq!(
        ShellCompleter::find_longest_common_prefix(&words(&["same", "same"])),
        ("same".to_string(), 1)
    );
}

#[test]
fn common_prefix_goes_by_characters() {
    assert_eq!(
        ShellCompleter::find_longest_common_prefix(&words(&["\u{e9}\u{e9}a", "\u{e9}\u{e9}b"])),
        ("\u{e9}\u{e9}".to_string(), 2)
    );
    assert_eq!(
        ShellCompleter::find_longest_common_prefix(&words(&["a\u{e9}", "a\u{e9}b"])),
        ("a\u{e9}".to_string(), 2)
    );
}

#[test]
fn text_order_is_lexicographic() {
    assert!(text_less("a", "b"));
    assert!(text_less("a", "ab"));
    assert!(text_less("", "a"));
    assert!(text_less("Z", "a"));
    assert!(text_less("ab", "b"));
    assert!(text_less("z", "\u{e9}"));
    assert!(!text_less("b", "a"));
    assert!(!text_less("ab", "a"));
    assert!(!text_less("a", "a"));
    assert!(!text_less("", ""));
}

#[test]
fn text_order_agrees_with_the_standard_one() {
    let samples = ["", "a", "ab", "b", "B", "abc", "\u{e9}", "z\u{1F600}", "\u{1F600}", "a b"];
    for x in samples {
        for y in samples {
            assert_eq!(text_less(x, y), x < y);
        }
    }
}

#[test]
fn starts_with_agrees_with_the_standard_one() {
    let samples = ["", "a", "ab", "abc", "b", "\u{e9}", "\u{e9}t"];
    for x in samples {
        for y in samples {
            assert_eq!(starts_with(x, y), x.starts_with(y));
        }
    }
}

#[test]
fn select_sorts_and_removes_repeats() {
    let names = words(&["gzip", "grep", "ls", "git", "grep", "g", "awk", "git"]);
    assert_eq!(select_matches(&names, "g"), words(&["g", "git", "grep", "gzip"]));
    assert_eq!(select_matches(&names, "gr"), words(&["grep"]));
    assert_eq!(select_matches(&names, "x"), Vec::<String>::new());
    assert_eq!(select_matches(&names, ""), words(&["awk", "g", "git", "grep", "gzip", "ls"]));
}

#[test]
fn select_agrees_with_sort_and_dedup() {
    let names = words(&["b", "a", "c", "a", "ab", "B", "", "ab", "\u{e9}", "b"]);
    let mut expected = names.clone();
    expected.sort();
    expected.dedup();
    assert_eq!(select_matches(&names, ""), expected);
}

#[test]
fn listing_text() {
    assert_eq!(
        matches_listing(&words(&["xyz_bar", "xyz_baz", "xyz_foo"]), "xyz_"),
        "\nxyz_bar  xyz_baz  xyz_foo\n$ xyz_"
    );
    assert_eq!(matches_listing(&words(&["one"]), "echo o"), "\none\n$ echo o");
    assert_eq!(matches_listing(&words(&[]), ""), "\n\n$ ");
}

#[test]
fn complete_single_builtin() {
    let mut c = ShellCompleter::new();
    let answer = c.complete("ech", 3, &words(&["echoctl"]));
    assert_eq!(
        answer,
        Completion { start: 0, candidates: vec![spaced("echo")], feedback: Feedback::Silent }
    );
}

#[test]
fn complete_several_builtins_in_table_order() {
    let mut c = ShellCompleter::new();
    let answer = c.complete("e", 1, &words(&[]));
    assert_eq!(answer.candidates, vec![spaced("echo"), spaced("exit")]);
    assert_eq!(answer.feedback, Feedback::Silent);
    let answer = c.complete("", 0, &words(&[]));
    assert_eq!(
        answer.candidates,
        vec![
            spaced("echo"),
            spaced("exit"),
            spaced("type"),
            spaced("pwd"),
            spaced("cd"),
            spaced("ls")
        ]
    );
}

#[test]
fn complete_word_after_a_space() {
    let mut c = ShellCompleter::new();
    let answer = c.complete("type ec", 7, &words(&[]));
    assert_eq!(answer.start, 5);
    assert_eq!(answer.candidates, vec![spaced("echo")]);
    let answer = c.complete("type ec rest", 7, &words(&[]));
    assert_eq!(answer.start, 5);
    assert_eq!(answer.candidates, vec![spaced("echo")]);
}

#[test]
fn complete_without_any_match_rings_the_bell() {
    let mut c = ShellCompleter::new();
    let answer = c.complete("zzz", 3, &words(&["ls", "grep"]));
    assert_eq!(answer, Completion { start: 0, candidates: vec![], feedback: Feedback::Bell });
}

#[test]
fn complete_single_program() {
    let mut c = ShellCompleter::new();
    let answer = c.complete("gre", 3, &words(&["ls", "grep", "grep"]));
    assert_eq!(
        answer,
        Completion { start: 0, candidates: vec![spaced("grep")], feedback: Feedback::Silent }
    );
}

#[test]
fn complete_to_the_common_prefix() {
    let mut c = ShellCompleter::new();
    let answer = c.complete("xy", 2, &words(&["xyz_foo", "xyz_bar", "abc"]));
    assert_eq!(
        answer,
        Completion {
            start: 0,
            candidates: vec![Candidate {
                display: "xyz_".to_string(),
                replacement: "xyz_".to_string()
            }],
            feedback: Feedback::Silent,
        }
    );
}

#[test]
fn complete_bell_then_listing() {
    let names = words(&["xyz_foo", "xyz_bar", "xyz_baz"]);
    let mut c = ShellCompleter::new();
    let first = c.complete("xyz_", 4, &names);
    assert_eq!(first, Completion { start: 0, candidates: vec![], feedback: Feedback::Bell });
    let second = c.complete("xyz_", 4, &names);
    assert_eq!(
        second,
        Completion {
            start: 0,
            candidates: vec![],
            feedback: Feedback::Listing("\nxyz_bar  xyz_baz  xyz_foo\n$ xyz_".to_string()),
        }
    );
    let third = c.complete("xyz_", 4, &names);
    assert_eq!(third.feedback, Feedback::Bell);
}

#[test]
fn complete_another_line_starts_over() {
    let names = words(&["xyz_foo", "xyz_bar"]);
    let mut c = ShellCompleter::new();
    assert_eq!(c.complete("xyz_", 4, &names).feedback, Feedback::Bell);
    assert_eq!(c.complete("xyz_b", 5, &names).candidates, vec![spaced("xyz_bar")]);
    assert_eq!(c.complete("xyz_", 4, &names).feedback, Feedback::Bell);
}

#[test]
fn complete_with_given_matches() {
    let mut c = ShellCompleter::default();
    let answer = c.complete_with("cmd gi", 6, &words(&["git", "gitk"]));
    assert_eq!(answer.start, 4);
    assert_eq!(
        answer.candidates,
        vec![Candidate { display: "git".to_string(), replacement: "git".to_string() }]
    );
}

#[test]
fn path_names_are_wanted_only_without_a_builtin() {
    assert!(!ShellCompleter::wants_path_names("ec", 2));
    assert!(!ShellCompleter::wants_path_names("", 0));
    assert!(ShellCompleter::wants_path_names("gr", 2));
    assert!(ShellCompleter::wants_path_names("echo x", 6));
    assert!(!ShellCompleter::wants_path_names("echo x", 3));
}

#[test]
fn feedback_for_the_terminal() {
    assert_eq!(Feedback::Silent.text(), "");
    assert_eq!(Feedback::Bell.text(), "\u{7}");
    assert_eq!(Feedback::Listing("\na  b\n$ x".to_string()).text(), "\na  b\n$ x");
}
