use vstd::prelude::*;
use crate::number::{
    decimal, pad_left, padded_decimal, parse_number, parse_unsigned, parsed, parsed_unsigned,
};
use crate::redirect::Stream;
use crate::text::{chars_of, join, same_text, string_of_range};

verus! {

/// The commands that the shell runs itself, inside its own process.
#[derive(Clone, Copy, PartialEq, Eq, Debug, Structural)]
pub enum Builtin {
    Exit,
    Echo,
    Pwd,
    Cd,
    Type,
    History,
}

/// The built-in that `name` names. `ls` and `cat` are none: they are
/// programs on the search path.
pub open spec fn builtin_of(name: Seq<char>) -> Option<Builtin> {
    if name == "exit"@ {
        Some(Builtin::Exit)
    } else if name == "echo"@ {
        Some(Builtin::Echo)
    } else if name == "pwd"@ {
        Some(Builtin::Pwd)
    } else if name == "cd"@ {
        Some(Builtin::Cd)
    } else if name == "type"@ {
        Some(Builtin::Type)
    } else if name == "history"@ {
        Some(Builtin::History)
    } else {
        None
    }
}

/// Tells a built-in from the name of a program.
pub fn classify(name: &str) -> (kind: Option<Builtin>)
    ensures
        kind == builtin_of(name@),
{
    if same_text(name, "exit") {
        Some(Builtin::Exit)
    } else if same_text(name, "echo") {
        Some(Builtin::Echo)
    } else if same_text(name, "pwd") {
        Some(Builtin::Pwd)
    } else if same_text(name, "cd") {
        Some(Builtin::Cd)
    } else if same_text(name, "type") {
        Some(Builtin::Type)
    } else if same_text(name, "history") {
        Some(Builtin::History)
    } else {
        None
    }
}

/// What a command writes without doing anything else: the text, the
/// stream it goes to, and whether the command has succeeded with it.
#[derive(Clone, Debug, PartialEq, Eq)]
pub struct Output {
    pub stream: Stream,
    pub text: String,
    pub success: bool,
}

/// An output as contracts speak of it.
pub struct OutputView {
    pub stream: Stream,
    pub text: Seq<char>,
    pub success: bool,
}

impl View for Output {
    type V = OutputView;

    open spec fn view(&self) -> OutputView {
        OutputView { stream: self.stream, text: self.text@, success: self.success }
    }
}

/// What `echo` writes: its arguments with single spaces between them, and
/// a line break.
pub open spec fn echo_line(args: Seq<Seq<char>>) -> Seq<char> {
    join(args, " "@) + "\n"@
}

/// The words of `words` from index `from` on, with `sep` between
/// neighbours.
fn join_from(words: &Vec<String>, from: usize, sep: &str) -> (text: String)
    requires
        from <= words@.len(),
    ensures
        text@ == join(words.deep_view().skip(from as int), sep@),
{
    let mut text = String::new();
    let ghost all = words.deep_view();
    let ghost tail = all.skip(from as int);
    let mut i: usize = from;
    proof {
        assert(tail.take(0) =~= Seq::<Seq<char>>::empty());
    }
    while i < words.len()
        invariant
            all == words.deep_view(),
            tail == all.skip(from as int),
            from <= i <= words@.len(),
            text@ == join(tail.take(i - from), sep@),
        decreases words@.len() - i,
    {
        proof {
            assert(tail.take(i - from + 1).drop_last() =~= tail.take(i - from));
            assert(tail.take(i - from + 1).last() == words@[i as int]@);
            if i == from {
                assert(Seq::<char>::empty() + words@[i as int]@ =~= words@[i as int]@);
            }
        }
        if i > from {
            text.append(sep);
        }
        text.append(words[i].as_str());
        i = i + 1;
    }
    proof {
        assert(tail.take(words@.len() - from) =~= tail);
    }
    text
}

/// The status that `exit` ends the shell with: 0 without an argument; the
/// first argument where it is a decimal number that fits, with or without a
/// sign; 0 for any other argument.
pub open spec fn exit_status_of(args: Seq<Seq<char>>) -> int {
    if args.len() == 0 {
        0
    } else if args[0].len() > 0 && args[0][0] == '-' {
        match parsed(args[0].drop_first(), 0x8000_0000) {
            Some(n) => -(n as int),
            None => 0,
        }
    } else {
        match parsed_unsigned(args[0], 0x7fff_ffff) {
            Some(n) => n as int,
            None => 0,
        }
    }
}

fn exit_status(argv: &Vec<String>) -> (status: i32)
    requires
        argv@.len() > 0,
    ensures
        status == exit_status_of(argv.deep_view().skip(1)),
{
    let ghost args = argv.deep_view().skip(1);
    if argv.len() < 2 {
        return 0;
    }
    proof {
        assert(args[0] == argv@[1]@);
    }
    let word = argv[1].as_str();
    let chars = chars_of(word);
    if chars.len() > 0 && chars[0] == '-' {
        let digits = string_of_range(&chars, 1, chars.len());
        match parse_number(digits.as_str(), 0x8000_0000) {
            Some(n) => {
                if n == 0x8000_0000 {
                    i32::MIN
                } else {
                    let m: i32 = n as i32;
                    -m
                }
            },
            None => 0,
        }
    } else {
        match parse_unsigned(word, 0x7fff_ffff) {
            Some(n) => n as i32,
            None => 0,
        }
    }
}

/// What the `history` built-in is asked to do.
#[derive(Clone, Debug, PartialEq, Eq)]
pub enum HistoryRequest {
    /// Print every entry.
    ShowAll,
    /// Print the last entries, this many at most.
    ShowLast(usize),
    /// Add the lines of the file to the history.
    Read(String),
    /// Write the history to the file, in place of what it holds.
    Write(String),
    /// Add the history to the end of the file, and forget it.
    Append(String),
}

/// A history request as contracts speak of it.
pub enum HistoryRequestView {
    ShowAll,
    ShowLast(usize),
    Read(Seq<char>),
    Write(Seq<char>),
    Append(Seq<char>),
}

impl View for HistoryRequest {
    type V = HistoryRequestView;

    open spec fn view(&self) -> HistoryRequestView {
        match self {
            HistoryRequest::ShowAll => HistoryRequestView::ShowAll,
            HistoryRequest::ShowLast(n) => HistoryRequestView::ShowLast(*n),
            HistoryRequest::Read(f) => HistoryRequestView::Read(f@),
            HistoryRequest::Write(f) => HistoryRequestView::Write(f@),
            HistoryRequest::Append(f) => HistoryRequestView::Append(f@),
        }
    }
}

/// The request that the arguments of `history` make, if they make one:
/// none or an empty first one asks for every entry, a number, with or
/// without a `+` before it, for the last entries, `-r`, `-w` and `-a` with a
/// file name for reading, writing and appending.
pub open spec fn history_request_of(args: Seq<Seq<char>>) -> Option<HistoryRequestView> {
    if args.len() == 0 || args[0].len() == 0 {
        Some(HistoryRequestView::ShowAll)
    } else if args[0] == "-r"@ || args[0] == "-w"@ || args[0] == "-a"@ {
        if args.len() < 2 {
            None
        } else if args[0] == "-r"@ {
            Some(HistoryRequestView::Read(args[1]))
        } else if args[0] == "-w"@ {
            Some(HistoryRequestView::Write(args[1]))
        } else {
            Some(HistoryRequestView::Append(args[1]))
        }
    } else {
        match parsed_unsigned(args[0], usize::MAX as nat) {
            Some(n) => Some(HistoryRequestView::ShowLast(n as usize)),
            None => None,
        }
    }
}

fn history_request(argv: &Vec<String>) -> (request: Option<HistoryRequest>)
    requires
        argv@.len() > 0,
    ensures
        match request {
            Some(r) => history_request_of(argv.deep_view().skip(1)) == Some(r@),
            None => history_request_of(argv.deep_view().skip(1)).is_none(),
        },
{
    let ghost args = argv.deep_view().skip(1);
    if argv.len() < 2 {
        return Some(HistoryRequest::ShowAll);
    }
    proof {
        assert(args[0] == argv@[1]@);
        if argv@.len() >= 3 {
            assert(args[1] == argv@[2]@);
        }
    }
    let first = argv[1].as_str();
    if first.unicode_len() == 0 {
        return Some(HistoryRequest::ShowAll);
    }
    let reads = same_text(first, "-r");
    let writes = same_text(first, "-w");
    let appends = same_text(first, "-a");
    if reads || writes || appends {
        if argv.len() < 3 {
            return None;
        }
        let file = argv[2].clone();
        if reads {
            Some(HistoryRequest::Read(file))
        } else if writes {
            Some(HistoryRequest::Write(file))
        } else {
            Some(HistoryRequest::Append(file))
        }
    } else {
        match parse_unsigned(first, usize::MAX as u64) {
            Some(n) => Some(HistoryRequest::ShowLast(n as usize)),
            None => None,
        }
    }
}

/// The first entry that is shown of a history of `len` entries: all of
/// them, or the last `last`.
pub open spec fn history_start(len: nat, last: Option<usize>) -> nat {
    match last {
        Some(n) => if n >= len {
            0
        } else {
            (len - n) as nat
        },
        None => 0,
    }
}

/// One line of the history: the number of the entry, counted from 1 and
/// padded with spaces to four characters, two spaces, and the entry.
pub open spec fn history_line(number: nat, entry: Seq<char>) -> Seq<char> {
    pad_left(decimal(number), 4) + "  "@ + entry
}

/// The lines that `history` prints, without their line breaks.
pub open spec fn history_lines(entries: Seq<Seq<char>>, last: Option<usize>) -> Seq<Seq<char>> {
    let start = history_start(entries.len(), last);
    Seq::new(
        (entries.len() - start) as nat,
        |k: int| history_line((start + k + 1) as nat, entries[start + k]),
    )
}

/// The lines that `history` prints for the entries, oldest first: all of
/// them, or the last `last`, each under the number it has in the whole
/// history.
pub fn history_listing(entries: &Vec<String>, last: Option<usize>) -> (lines: Vec<String>)
    ensures
        lines.deep_view() == history_lines(entries.deep_view(), last),
{
    let len = entries.len();
    let start: usize = match last {
        Some(n) => if n >= len {
            0
        } else {
            len - n
        },
        None => 0,
    };
    let mut lines: Vec<String> = Vec::new();
    let mut i: usize = start;
    let ghost wanted = history_lines(entries.deep_view(), last);
    while i < len
        invariant
            len == entries@.len(),
            start == history_start(len as nat, last),
            start <= i <= len,
            wanted == history_lines(entries.deep_view(), last),
            lines@.len() == i - start,
            forall|k: int| 0 <= k < i - start ==> (#[trigger] lines@[k])@ == wanted[k],
        decreases len - i,
    {
        let mut line = padded_decimal(i + 1, 4);
        line.append("  ");
        line.append(entries[i].as_str());
        lines.push(line);
        i = i + 1;
    }
    proof {
        assert(lines.deep_view() =~= wanted);
    }
    lines
}

/// The lines, each followed by a line break.
pub open spec fn lines_text(lines: Seq<Seq<char>>) -> Seq<char>
    decreases lines.len(),
{
    if lines.len() == 0 {
        Seq::empty()
    } else {
        lines_text(lines.drop_last()) + lines.last() + "\n"@
    }
}

/// The text of a file or a stream that holds the lines, one per line.
pub fn text_of_lines(lines: &Vec<String>) -> (text: String)
    ensures
        text@ == lines_text(lines.deep_view()),
{
    let mut text = String::new();
    let ghost all = lines.deep_view();
    let mut i: usize = 0;
    proof {
        assert(all.take(0) =~= Seq::<Seq<char>>::empty());
    }
    while i < lines.len()
        invariant
            all == lines.deep_view(),
            i <= lines@.len(),
            text@ == lines_text(all.take(i as int)),
        decreases lines@.len() - i,
    {
        proof {
            assert(all.take(i + 1).drop_last() =~= all.take(i as int));
            assert(all.take(i + 1).last() == lines@[i as int]@);
        }
        text.append(lines[i].as_str());
        text.append("\n");
        i = i + 1;
    }
    proof {
        assert(all.take(lines@.len() as int) =~= all);
    }
    text
}

/// What a command asks of the shell.
#[derive(Clone, Debug, PartialEq, Eq)]
pub enum Invocation {
    /// End the shell with this status.
    Exit(i32),
    /// Write the text; nothing else happens.
    Report(Output),
    /// Write the working directory and a line break to stdout.
    Pwd,
    /// Make this directory the working directory.
    Cd(String),
    /// Say what this name is: a built-in, a program, or unknown.
    Type(String),
    /// Serve the request on the history.
    History(HistoryRequest),
    /// Find the program named by the first word and run it with the others.
    Run,
    /// Do nothing.
    Nothing,
}

/// An invocation as contracts speak of it.
pub enum InvocationView {
    Exit(i32),
    Report(OutputView),
    Pwd,
    Cd(Seq<char>),
    Type(Seq<char>),
    History(HistoryRequestView),
    Run,
    Nothing,
}

impl View for Invocation {
    type V = InvocationView;

    open spec fn view(&self) -> InvocationView {
        match self {
            Invocation::Exit(s) => InvocationView::Exit(*s),
            Invocation::Report(o) => InvocationView::Report(o@),
            Invocation::Pwd => InvocationView::Pwd,
            Invocation::Cd(d) => InvocationView::Cd(d@),
            Invocation::Type(n) => InvocationView::Type(n@),
            Invocation::History(r) => InvocationView::History(r@),
            Invocation::Run => InvocationView::Run,
            Invocation::Nothing => InvocationView::Nothing,
        }
    }
}

/// What the words of a command ask for, where `home` is the value of
/// `HOME`, if it is set.
///
/// `cd` without an argument, or with `~`, goes to `home`. `type` speaks of
/// its first argument; without one it does nothing. Arguments of `history`
/// that make no request are answered on stderr. Any word that is no built-in
/// is the name of a program.
pub open spec fn invocation_of(argv: Seq<Seq<char>>, home: Option<Seq<char>>) -> InvocationView {
    if argv.len() == 0 {
        InvocationView::Nothing
    } else {
        let args = argv.skip(1);
        match builtin_of(argv[0]) {
            Some(Builtin::Exit) => InvocationView::Exit(exit_status_of(args) as i32),
            Some(Builtin::Echo) => InvocationView::Report(
                OutputView { stream: Stream::Stdout, text: echo_line(args), success: true },
            ),
            Some(Builtin::Pwd) => InvocationView::Pwd,
            Some(Builtin::Cd) => {
                if args.len() == 0 || args[0] == "~"@ {
                    match home {
                        Some(h) => InvocationView::Cd(h),
                        None => InvocationView::Report(
                            OutputView {
                                stream: Stream::Stderr,
                                text: "cd: HOME not set\n"@,
                                success: false,
                            },
                        ),
                    }
                } else {
                    InvocationView::Cd(args[0])
                }
            },
            Some(Builtin::Type) => {
                if args.len() == 0 {
                    InvocationView::Nothing
                } else {
                    InvocationView::Type(args[0])
                }
            },
            Some(Builtin::History) => match history_request_of(args) {
                Some(request) => InvocationView::History(request),
                None => InvocationView::Report(
                    OutputView {
                        stream: Stream::Stderr,
                        text: "history: invalid argument\n"@,
                        success: false,
                    },
                ),
            },
            None => InvocationView::Run,
        }
    }
}

/// Decides what the words of a command ask for.
pub fn plan_command(argv: &Vec<String>, home: Option<&str>) -> (plan: Invocation)
    ensures
        plan@ == invocation_of(
            argv.deep_view(),
            match home {
                Some(h) => Some(h@),
                None => None,
            },
        ),
{
    if argv.len() == 0 {
        return Invocation::Nothing;
    }
    let ghost args = argv.deep_view().skip(1);
    proof {
        assert(argv.deep_view()[0] == argv@[0]@);
        if argv@.len() >= 2 {
            assert(args[0] == argv@[1]@);
        }
    }
    match classify(argv[0].as_str()) {
        Some(Builtin::Exit) => Invocation::Exit(exit_status(argv)),
        Some(Builtin::Echo) => {
            let mut text = join_from(argv, 1, " ");
            text.append("\n");
            Invocation::Report(Output { stream: Stream::Stdout, text, success: true })
        },
        Some(Builtin::Pwd) => Invocation::Pwd,
        Some(Builtin::Cd) => {
            if argv.len() < 2 || same_text(argv[1].as_str(), "~") {
                match home {
                    Some(h) => Invocation::Cd(h.to_owned()),
                    None => Invocation::Report(
                        Output {
                            stream: Stream::Stderr,
                            text: "cd: HOME not set\n".to_owned(),
                            success: false,
                        },
                    ),
                }
            } else {
                Invocation::Cd(argv[1].clone())
            }
        },
        Some(Builtin::Type) => {
            if argv.len() < 2 {
                Invocation::Nothing
            } else {
                Invocation::Type(argv[1].clone())
            }
        },
        Some(Builtin::History) => match history_request(argv) {
            Some(request) => Invocation::History(request),
            None => Invocation::Report(
                Output {
                    stream: Stream::Stderr,
                    text: "history: invalid argument\n".to_owned(),
                    success: false,
                },
            ),
        },
        None => Invocation::Run,
    }
}

/// What `cd` writes where the directory cannot be entered.
pub open spec fn cd_failure_line(dir: Seq<char>) -> Seq<char> {
    "cd: "@ + dir + ": No such file or directory\n"@
}

/// What `cd` writes to stdout where the directory cannot be entered.
pub fn cd_failure(dir: &str) -> (report: Output)
    ensures
        report@ == (OutputView {
            stream: Stream::Stdout,
            text: cd_failure_line(dir@),
            success: false,
        }),
{
    let mut text = "cd: ".to_owned();
    text.append(dir);
    text.append(": No such file or directory\n");
    Output { stream: Stream::Stdout, text, success: false }
}

/// What the shell writes where no program of that name is found.
pub open spec fn not_found_line(name: Seq<char>) -> Seq<char> {
    name + ": command not found\n"@
}

/// What the shell writes to stderr where no program of that name is found.
pub fn command_not_found(name: &str) -> (report: Output)
    ensures
        report@ == (OutputView {
            stream: Stream::Stderr,
            text: not_found_line(name@),
            success: false,
        }),
{
    let mut text = name.to_owned();
    text.append(": command not found\n");
    Output { stream: Stream::Stderr, text, success: false }
}

/// What `pwd` writes for the working directory `dir`.
pub fn working_directory_report(dir: &str) -> (report: Output)
    ensures
        report@ == (OutputView { stream: Stream::Stdout, text: dir@ + "\n"@, success: true }),
{
    let mut text = dir.to_owned();
    text.append("\n");
    Output { stream: Stream::Stdout, text, success: true }
}

/// What `type` says of `name`, where `program` is the path that the search
/// found for it, if any: a built-in is named as one, whatever the search
/// found; a program is named with its path; anything else is not found, and
/// that goes to stderr. `type` has succeeded in each case: it has said what
/// the name is.
pub open spec fn type_line(name: Seq<char>, program: Option<Seq<char>>) -> OutputView {
    if builtin_of(name).is_some() {
        OutputView { stream: Stream::Stdout, text: name + " is a shell builtin\n"@, success: true }
    } else {
        match program {
            Some(path) => OutputView {
                stream: Stream::Stdout,
                text: name + " is "@ + path + "\n"@,
                success: true,
            },
            None => OutputView {
                stream: Stream::Stderr,
                text: name + ": not found\n"@,
                success: true,
            },
        }
    }
}

/// Whether `type` has to search for `name`: it has unless `name` is a
/// built-in.
pub fn type_needs_search(name: &str) -> (needed: bool)
    ensures
        needed == builtin_of(name@).is_none(),
{
    classify(name).is_none()
}

/// What `type` writes about `name`.
pub fn type_report(name: &str, program: Option<&str>) -> (report: Output)
    ensures
        report@ == type_line(
            name@,
            match program {
                Some(p) => Some(p@),
                None => None,
            },
        ),
{
    let mut text = name.to_owned();
    if classify(name).is_some() {
        text.append(" is a shell builtin\n");
        return Output { stream: Stream::Stdout, text, success: true };
    }
    match program {
        Some(path) => {
            text.append(" is ");
            text.append(path);
            text.append("\n");
            Output { stream: Stream::Stdout, text, success: true }
        },
        None => {
            text.append(": not found\n");
            Output { stream: Stream::Stderr, text, success: true }
        },
    }
}

} // verus!
