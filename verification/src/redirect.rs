use vstd::prelude::*;
use crate::text::same_text;

verus! {

/// The standard stream that a redirection replaces.
#[derive(Clone, Copy, PartialEq, Eq, Debug, Structural)]
pub enum Stream {
    Stdout,
    Stderr,
}

/// How the target file of a redirection is opened.
#[derive(Clone, Copy, PartialEq, Eq, Debug, Structural)]
pub enum Mode {
    /// The file is created, or emptied if it exists.
    Truncate,
    /// The file is created if it is absent; what is written goes to its end.
    Append,
}

/// The flags with which a target file is opened for writing.
#[derive(Clone, Copy, PartialEq, Eq, Debug, Structural)]
pub struct OpenPlan {
    pub create: bool,
    pub truncate: bool,
    pub append: bool,
}

impl Mode {
    /// The flags for this mode. Both modes create a missing file; only
    /// `Truncate` empties an existing one, only `Append` writes at its end.
    pub fn open_plan(self) -> (plan: OpenPlan)
        ensures
            plan.create,
            plan.truncate == (self == Mode::Truncate),
            plan.append == (self == Mode::Append),
    {
        match self {
            Mode::Truncate => OpenPlan { create: true, truncate: true, append: false },
            Mode::Append => OpenPlan { create: true, truncate: false, append: true },
        }
    }
}

/// One redirection of a command: the stream, the mode and the file.
#[derive(Clone, Debug, PartialEq, Eq)]
pub struct Redirection {
    pub stream: Stream,
    pub mode: Mode,
    pub target: String,
}

/// A redirection as contracts speak of it.
pub struct RedirectionView {
    pub stream: Stream,
    pub mode: Mode,
    pub target: Seq<char>,
}

impl View for Redirection {
    type V = RedirectionView;

    open spec fn view(&self) -> RedirectionView {
        RedirectionView { stream: self.stream, mode: self.mode, target: self.target@ }
    }
}

impl DeepView for Redirection {
    type V = RedirectionView;

    open spec fn deep_view(&self) -> RedirectionView {
        self@
    }
}

/// A command ready to run: its words without the redirection words, and
/// the redirections in the order in which the line gave them.
#[derive(Clone, Debug, PartialEq, Eq)]
pub struct Command {
    pub argv: Vec<String>,
    pub redirections: Vec<Redirection>,
}

/// A command as contracts speak of it.
pub struct CommandView {
    pub argv: Seq<Seq<char>>,
    pub redirections: Seq<RedirectionView>,
}

impl View for Command {
    type V = CommandView;

    open spec fn view(&self) -> CommandView {
        CommandView {
            argv: self.argv.deep_view(),
            redirections: self.redirections.deep_view(),
        }
    }
}

impl DeepView for Command {
    type V = CommandView;

    open spec fn deep_view(&self) -> CommandView {
        self@
    }
}

/// Why a list of words is no command.
#[derive(Clone, Copy, PartialEq, Eq, Debug, Structural)]
pub enum CommandError {
    /// A redirection operator is the last word: its target is missing.
    MissingTarget,
    /// No word is left once the redirections are taken out.
    EmptyCommand,
}

impl CommandError {
    /// The words that report the error.
    pub open spec fn message_text(self) -> Seq<char> {
        match self {
            CommandError::MissingTarget => "syntax error: redirection without a target"@,
            CommandError::EmptyCommand => "syntax error: empty command"@,
        }
    }

    /// The words that report the error.
    pub fn message(&self) -> (text: String)
        ensures
            text@ == self.message_text(),
    {
        match self {
            CommandError::MissingTarget => "syntax error: redirection without a target".to_owned(),
            CommandError::EmptyCommand => "syntax error: empty command".to_owned(),
        }
    }
}

/// The redirection that the word `w` stands for, if it is an operator:
/// `>` and `1>` truncate for stdout, `>>` and `1>>` append for stdout, `2>`
/// truncates and `2>>` appends for stderr.
pub open spec fn operator_of(w: Seq<char>) -> Option<(Stream, Mode)> {
    if w == ">"@ || w == "1>"@ {
        Some((Stream::Stdout, Mode::Truncate))
    } else if w == ">>"@ || w == "1>>"@ {
        Some((Stream::Stdout, Mode::Append))
    } else if w == "2>"@ {
        Some((Stream::Stderr, Mode::Truncate))
    } else if w == "2>>"@ {
        Some((Stream::Stderr, Mode::Append))
    } else {
        None
    }
}

/// Tells a redirection operator from an ordinary word.
pub fn operator_kind(word: &str) -> (kind: Option<(Stream, Mode)>)
    ensures
        kind == operator_of(word@),
{
    if same_text(word, ">") || same_text(word, "1>") {
        Some((Stream::Stdout, Mode::Truncate))
    } else if same_text(word, ">>") || same_text(word, "1>>") {
        Some((Stream::Stdout, Mode::Append))
    } else if same_text(word, "2>") {
        Some((Stream::Stderr, Mode::Truncate))
    } else if same_text(word, "2>>") {
        Some((Stream::Stderr, Mode::Append))
    } else {
        None
    }
}

/// The first operator of `stream` and `mode` among `args` is the word at
/// `i`.
pub open spec fn first_operator_at(args: Seq<Seq<char>>, stream: Stream, mode: Mode, i: int)
    -> bool {
    &&& 0 <= i < args.len()
    &&& operator_of(args[i]) == Some((stream, mode))
    &&& forall|j: int| 0 <= j < i ==> operator_of(#[trigger] args[j]) != Some((stream, mode))
}

/// No word of `args` is an operator of `stream` and `mode`.
pub open spec fn no_operator(args: Seq<Seq<char>>, stream: Stream, mode: Mode) -> bool {
    forall|j: int| 0 <= j < args.len() ==> operator_of(#[trigger] args[j]) != Some((stream, mode))
}

/// `result` is what a search for the operator of `stream` and `mode` among
/// `args` gives: nothing where no word is such an operator; the index of the
/// first one where a word follows it, which is its target; and the error of
/// a missing target where the first one is the last word.
pub open spec fn search_gives(
    args: Seq<Seq<char>>,
    stream: Stream,
    mode: Mode,
    result: Result<Option<usize>, CommandError>,
) -> bool {
    match result {
        Ok(None) => no_operator(args, stream, mode),
        Ok(Some(i)) => first_operator_at(args, stream, mode, i as int) && i + 1 < args.len(),
        Err(e) => e == CommandError::MissingTarget && first_operator_at(
            args,
            stream,
            mode,
            args.len() - 1,
        ),
    }
}

fn find_operator(args: &[String], stream: Stream, mode: Mode) -> (result: Result<
    Option<usize>,
    CommandError,
>)
    ensures
        search_gives(args.deep_view(), stream, mode, result),
{
    let n = args.len();
    let mut i: usize = 0;
    while i < n
        invariant
            n == args@.len(),
            i <= n,
            forall|j: int|
                0 <= j < i ==> operator_of(#[trigger] args.deep_view()[j]) != Some((stream, mode)),
        decreases n - i,
    {
        match operator_kind(args[i].as_str()) {
            Some((s, m)) => {
                if s == stream && m == mode {
                    if i + 1 < n {
                        return Ok(Some(i));
                    }
                    return Err(CommandError::MissingTarget);
                }
            },
            None => {},
        }
        i = i + 1;
    }
    Ok(None)
}

/// Looks for the first `>` or `1>` among `args`, whose target is the word
/// after it. The search is for this operator alone: it does not ask whether
/// the word is itself the target of an operator before it.
pub fn check_for_stdout_redirect(args: &[String]) -> (result: Result<Option<usize>, CommandError>)
    ensures
        search_gives(args.deep_view(), Stream::Stdout, Mode::Truncate, result),
{
    find_operator(args, Stream::Stdout, Mode::Truncate)
}

/// Looks for the first `>>` or `1>>` among `args`, whose target is the word
/// after it. The search is for this operator alone: it does not ask whether
/// the word is itself the target of an operator before it.
pub fn check_for_append_stdout(args: &[String]) -> (result: Result<Option<usize>, CommandError>)
    ensures
        search_gives(args.deep_view(), Stream::Stdout, Mode::Append, result),
{
    find_operator(args, Stream::Stdout, Mode::Append)
}

/// Looks for the first `2>` among `args`, whose target is the word after
/// it. The search is for this operator alone: it does not ask whether the
/// word is itself the target of an operator before it.
pub fn check_for_stderr_redirect(args: &[String]) -> (result: Result<Option<usize>, CommandError>)
    ensures
        search_gives(args.deep_view(), Stream::Stderr, Mode::Truncate, result),
{
    find_operator(args, Stream::Stderr, Mode::Truncate)
}

/// Looks for the first `2>>` among `args`, whose target is the word after
/// it. The search is for this operator alone: it does not ask whether the
/// word is itself the target of an operator before it.
pub fn check_for_append_stderr(args: &[String]) -> (result: Result<Option<usize>, CommandError>)
    ensures
        search_gives(args.deep_view(), Stream::Stderr, Mode::Append, result),
{
    find_operator(args, Stream::Stderr, Mode::Append)
}

/// The search has one answer.
pub proof fn lemma_search_unique(
    args: Seq<Seq<char>>,
    stream: Stream,
    mode: Mode,
    a: Result<Option<usize>, CommandError>,
    b: Result<Option<usize>, CommandError>,
)
    requires
        search_gives(args, stream, mode, a),
        search_gives(args, stream, mode, b),
    ensures
        a == b,
{
    let place = |r: Result<Option<usize>, CommandError>|
        match r {
            Ok(None) => -1,
            Ok(Some(i)) => i as int,
            Err(_) => args.len() - 1,
        };
    let x = place(a);
    let y = place(b);
    if x >= 0 && y >= 0 {
        if x < y {
            assert(operator_of(args[x]) != Some((stream, mode)));
        } else if y < x {
            assert(operator_of(args[y]) != Some((stream, mode)));
        }
    } else if x >= 0 {
        assert(operator_of(args[x]) != Some((stream, mode)));
    } else if y >= 0 {
        assert(operator_of(args[y]) != Some((stream, mode)));
    }
}

/// Among no words at all the search finds no operator.
pub proof fn lemma_search_of_nothing(stream: Stream, mode: Mode)
    ensures
        search_gives(Seq::<Seq<char>>::empty(), stream, mode, Ok(None)),
{
}

/// The words of a line sorted into those of the command and its
/// redirections, scanning from the left: an operator takes the word after it
/// as its target, whatever that word is, and both leave the command. `None`
/// where an operator is the last word.
pub open spec fn separate(words: Seq<Seq<char>>) -> Option<CommandView>
    decreases words.len(),
{
    if words.len() == 0 {
        Some(CommandView { argv: Seq::empty(), redirections: Seq::empty() })
    } else {
        match operator_of(words[0]) {
            Some((stream, mode)) => {
                if words.len() < 2 {
                    None
                } else {
                    match separate(words.skip(2)) {
                        Some(rest) => Some(
                            CommandView {
                                argv: rest.argv,
                                redirections: seq![
                                    RedirectionView { stream, mode, target: words[1] },
                                ] + rest.redirections,
                            },
                        ),
                        None => None,
                    }
                }
            },
            None => match separate(words.skip(1)) {
                Some(rest) => Some(
                    CommandView {
                        argv: seq![words[0]] + rest.argv,
                        redirections: rest.redirections,
                    },
                ),
                None => None,
            },
        }
    }
}

/// Nothing is lost and nothing made up: every word is a word of the
/// command, an operator or a target, and no word of the command is an
/// operator.
pub proof fn lemma_separate_keeps_count(words: Seq<Seq<char>>)
    ensures
        separate(words) matches Some(c) ==> {
            &&& c.argv.len() + 2 * c.redirections.len() == words.len()
            &&& forall|i: int| 0 <= i < c.argv.len() ==> operator_of(#[trigger] c.argv[i]).is_none()
        },
    decreases words.len(),
{
    if words.len() > 0 {
        match operator_of(words[0]) {
            Some((stream, mode)) => {
                if words.len() >= 2 {
                    lemma_separate_keeps_count(words.skip(2));
                }
            },
            None => {
                lemma_separate_keeps_count(words.skip(1));
            },
        }
    }
}

/// What `extract_redirections` returns for `words`.
pub open spec fn command_outcome(words: Seq<Seq<char>>) -> Result<CommandView, CommandError> {
    match separate(words) {
        None => Err(CommandError::MissingTarget),
        Some(c) => if c.argv.len() == 0 {
            Err(CommandError::EmptyCommand)
        } else {
            Ok(c)
        },
    }
}

/// `done` followed by what `rest` holds.
pub open spec fn extend_command(done: CommandView, rest: Option<CommandView>) -> Option<
    CommandView,
> {
    match rest {
        Some(r) => Some(
            CommandView {
                argv: done.argv + r.argv,
                redirections: done.redirections + r.redirections,
            },
        ),
        None => None,
    }
}

/// Takes the redirections out of the words of a command. Each operator
/// (`>`, `1>`, `>>`, `1>>`, `2>`, `2>>`) and the word after it become one
/// redirection; the other words, in their order, are the command. An
/// operator as the last word, and a command without a word, are refused.
pub fn extract_redirections(words: &Vec<String>) -> (result: Result<Command, CommandError>)
    ensures
        match result {
            Ok(command) => command_outcome(words.deep_view()) == Ok::<CommandView, CommandError>(
                command@,
            ),
            Err(e) => command_outcome(words.deep_view()) == Err::<CommandView, CommandError>(e),
        },
{
    let n = words.len();
    let mut argv: Vec<String> = Vec::new();
    let mut redirections: Vec<Redirection> = Vec::new();
    let mut i: usize = 0;
    let ghost all = words.deep_view();
    proof {
        assert(all.skip(0) =~= all);
        assert(argv.deep_view() =~= Seq::<Seq<char>>::empty());
        assert(redirections.deep_view() =~= Seq::<RedirectionView>::empty());
        let start = CommandView { argv: argv.deep_view(), redirections: redirections.deep_view() };
        match separate(all) {
            Some(r) => {
                assert(start.argv + r.argv =~= r.argv);
                assert(start.redirections + r.redirections =~= r.redirections);
            },
            None => {},
        }
    }
    while i < n
        invariant
            n == words@.len(),
            all == words.deep_view(),
            i <= n,
            separate(all) == extend_command(
                CommandView { argv: argv.deep_view(), redirections: redirections.deep_view() },
                separate(all.skip(i as int)),
            ),
        decreases n - i,
    {
        let ghost done = CommandView {
            argv: argv.deep_view(),
            redirections: redirections.deep_view(),
        };
        let ghost here = all.skip(i as int);
        proof {
            assert(here[0] == words@[i as int]@);
            assert(here.skip(1) =~= all.skip(i + 1));
        }
        match operator_kind(words[i].as_str()) {
            Some((stream, mode)) => {
                if i + 1 >= n {
                    return Err(CommandError::MissingTarget);
                }
                proof {
                    assert(here[1] == words@[i + 1]@);
                    assert(here.skip(2) =~= all.skip(i + 2));
                }
                redirections.push(Redirection { stream, mode, target: words[i + 1].clone() });
                proof {
                    let one = RedirectionView { stream, mode, target: here[1] };
                    assert(redirections.deep_view() =~= done.redirections.push(one));
                    match separate(here.skip(2)) {
                        Some(r) => {
                            assert(done.redirections + (seq![one] + r.redirections)
                                =~= done.redirections.push(one) + r.redirections);
                        },
                        None => {},
                    }
                }
                i = i + 2;
            },
            None => {
                argv.push(words[i].clone());
                proof {
                    assert(argv.deep_view() =~= done.argv.push(here[0]));
                    match separate(here.skip(1)) {
                        Some(r) => {
                            assert(done.argv + (seq![here[0]] + r.argv) =~= done.argv.push(here[0])
                                + r.argv);
                        },
                        None => {},
                    }
                }
                i = i + 1;
            },
        }
    }
    proof {
        assert(all.skip(n as int).len() == 0);
        assert(argv.deep_view() + Seq::<Seq<char>>::empty() =~= argv.deep_view());
        assert(redirections.deep_view() + Seq::<RedirectionView>::empty()
            =~= redirections.deep_view());
    }
    if argv.len() == 0 {
        return Err(CommandError::EmptyCommand);
    }
    Ok(Command { argv, redirections })
}

/// The redirection that applies to `stream`: the last one given for it.
pub open spec fn effective(redirections: Seq<RedirectionView>, stream: Stream) -> Option<
    RedirectionView,
>
    decreases redirections.len(),
{
    if redirections.len() == 0 {
        None
    } else if redirections.last().stream == stream {
        Some(redirections.last())
    } else {
        effective(redirections.drop_last(), stream)
    }
}

impl Command {
    /// The redirection that applies to `stream`, if the command has one.
    /// Where it names several for one stream, the last one applies and the
    /// earlier ones are not touched.
    pub fn redirection_for(&self, stream: Stream) -> (found: Option<&Redirection>)
        ensures
            match found {
                Some(r) => effective(self@.redirections, stream) == Some(r@),
                None => effective(self@.redirections, stream).is_none(),
            },
    {
        let mut i: usize = self.redirections.len();
        let ghost all = self@.redirections;
        proof {
            assert(all.take(i as int) =~= all);
        }
        while i > 0
            invariant
                i <= self.redirections@.len(),
                all == self.redirections.deep_view(),
                effective(all, stream) == effective(all.take(i as int), stream),
            decreases i,
        {
            proof {
                assert(all.take(i as int).drop_last() =~= all.take(i - 1));
                assert(all.take(i as int).last() == self.redirections@[i - 1]@);
            }
            if self.redirections[i - 1].stream == stream {
                return Some(&self.redirections[i - 1]);
            }
            i = i - 1;
        }
        None
    }
}

} // verus!
