use vstd::prelude::*;
use crate::lexer::{lex, lex_from, lex_start, parse_input};
use crate::pipeline::{
    has_pipeline, is_pipe_at, lemma_split_commands, quote_state, split_outcome, split_pipeline,
    stages,
};
use crate::redirect::{command_outcome, extract_redirections, Command, CommandError, CommandView};
use crate::text::{lemma_pieces_nonempty, pieces, split_on, trim, trim_line};

verus! {

/// The prompt that goes before every read.
pub fn prompt() -> (text: &'static str)
    ensures
        text@ == "$ "@,
{
    "$ "
}

/// How a read of the line editor ended.
#[derive(Clone, Debug, PartialEq, Eq)]
pub enum ReadOutcome {
    /// The user entered this line.
    Line(String),
    /// The user gave the line up.
    Interrupted,
    /// The input is at its end.
    Eof,
    /// The editor failed.
    Failed,
}

/// A read outcome as contracts speak of it.
pub enum ReadOutcomeView {
    Line(Seq<char>),
    Interrupted,
    Eof,
    Failed,
}

impl View for ReadOutcome {
    type V = ReadOutcomeView;

    open spec fn view(&self) -> ReadOutcomeView {
        match self {
            ReadOutcome::Line(l) => ReadOutcomeView::Line(l@),
            ReadOutcome::Interrupted => ReadOutcomeView::Interrupted,
            ReadOutcome::Eof => ReadOutcomeView::Eof,
            ReadOutcome::Failed => ReadOutcomeView::Failed,
        }
    }
}

/// What the loop does after a read.
#[derive(Clone, Debug, PartialEq, Eq)]
pub enum LoopStep {
    /// Remember this line in the history and run it.
    Run(String),
    /// Read the next line.
    Again,
    /// Leave the loop; the shell ends in good order.
    Leave,
    /// Leave the loop because the editor failed.
    Abort,
}

/// A loop step as contracts speak of it.
pub enum LoopStepView {
    Run(Seq<char>),
    Again,
    Leave,
    Abort,
}

impl View for LoopStep {
    type V = LoopStepView;

    open spec fn view(&self) -> LoopStepView {
        match self {
            LoopStep::Run(l) => LoopStepView::Run(l@),
            LoopStep::Again => LoopStepView::Again,
            LoopStep::Leave => LoopStepView::Leave,
            LoopStep::Abort => LoopStepView::Abort,
        }
    }
}

/// The step that follows a read: a line is run without the whitespace
/// around it, unless nothing is left of it; an interrupt gives the line up;
/// the end of input ends the shell; any other failure of the editor ends
/// it too.
pub open spec fn step_after(outcome: ReadOutcomeView) -> LoopStepView {
    match outcome {
        ReadOutcomeView::Line(l) => if trim(l).len() == 0 {
            LoopStepView::Again
        } else {
            LoopStepView::Run(trim(l))
        },
        ReadOutcomeView::Interrupted => LoopStepView::Again,
        ReadOutcomeView::Eof => LoopStepView::Leave,
        ReadOutcomeView::Failed => LoopStepView::Abort,
    }
}

/// Decides what the loop does after a read.
pub fn next_step(outcome: &ReadOutcome) -> (step: LoopStep)
    ensures
        step@ == step_after(outcome@),
{
    match outcome {
        ReadOutcome::Line(l) => {
            let line = trim_line(l.as_str());
            if line.as_str().unicode_len() == 0 {
                LoopStep::Again
            } else {
                LoopStep::Run(line)
            }
        },
        ReadOutcome::Interrupted => LoopStep::Again,
        ReadOutcome::Eof => LoopStep::Leave,
        ReadOutcome::Failed => LoopStep::Abort,
    }
}

/// How a line is to be run.
#[derive(Clone, Debug, PartialEq, Eq)]
pub enum Route {
    /// One command, in the shell's own process or as one program.
    Single(Command),
    /// Two commands or more, each in a process of its own, connected by
    /// pipes.
    Pipeline(Vec<Command>),
    /// The line is refused; these words go to stderr and nothing runs.
    Rejected(String),
}

/// A route as contracts speak of it.
pub enum RouteView {
    Single(CommandView),
    Pipeline(Seq<CommandView>),
    Rejected(Seq<char>),
}

impl View for Route {
    type V = RouteView;

    open spec fn view(&self) -> RouteView {
        match self {
            Route::Single(c) => RouteView::Single(c@),
            Route::Pipeline(cs) => RouteView::Pipeline(cs.deep_view()),
            Route::Rejected(m) => RouteView::Rejected(m@),
        }
    }
}

/// The lexer and the scan for pipe operators read quotes and escapes
/// alike: after any text both are inside the same quotes, and both or
/// neither wait for an escaped character.
pub proof fn lemma_scans_agree(text: Seq<char>)
    ensures
        lex_from(lex_start(), text).in_single == quote_state(text).in_single,
        lex_from(lex_start(), text).in_double == quote_state(text).in_double,
        lex_from(lex_start(), text).escaped == quote_state(text).escaped,
    decreases text.len(),
{
    if text.len() > 0 {
        lemma_scans_agree(text.drop_last());
    }
}

/// The commands of the stages, or the first error among them.
pub open spec fn stage_commands(parts: Seq<Seq<char>>) -> Result<Seq<CommandView>, CommandError>
    decreases parts.len(),
{
    if parts.len() == 0 {
        Ok(Seq::empty())
    } else {
        match stage_commands(parts.drop_last()) {
            Err(e) => Err(e),
            Ok(commands) => match command_outcome(lex(parts.last())) {
                Ok(c) => Ok(commands.push(c)),
                Err(e) => Err(e),
            },
        }
    }
}

/// How `line` is to be run. A line with a pipe operator is a pipeline: it
/// is split, and each stage is lexed and parted from its redirections. Any
/// other line is one command. The first error refuses the whole line.
pub open spec fn route_of(line: Seq<char>) -> RouteView {
    if exists|i: int| is_pipe_at(line, i) {
        match split_outcome(line) {
            Err(e) => RouteView::Rejected(e.message_text()),
            Ok(parts) => match stage_commands(parts) {
                Ok(commands) => RouteView::Pipeline(commands),
                Err(e) => RouteView::Rejected(e.message_text()),
            },
        }
    } else {
        match command_outcome(lex(line)) {
            Ok(c) => RouteView::Single(c),
            Err(e) => RouteView::Rejected(e.message_text()),
        }
    }
}

fn stage_list(parts: &Vec<String>) -> (result: Result<Vec<Command>, CommandError>)
    ensures
        match result {
            Ok(commands) => stage_commands(parts.deep_view()) == Ok::<
                Seq<CommandView>,
                CommandError,
            >(commands.deep_view()),
            Err(e) => stage_commands(parts.deep_view()) == Err::<Seq<CommandView>, CommandError>(
                e,
            ),
        },
{
    let mut commands: Vec<Command> = Vec::new();
    let ghost all = parts.deep_view();
    let mut i: usize = 0;
    proof {
        assert(all.take(0) =~= Seq::<Seq<char>>::empty());
        assert(commands.deep_view() =~= Seq::<CommandView>::empty());
    }
    while i < parts.len()
        invariant
            all == parts.deep_view(),
            i <= parts@.len(),
            stage_commands(all.take(i as int)) == Ok::<Seq<CommandView>, CommandError>(
                commands.deep_view(),
            ),
        decreases parts@.len() - i,
    {
        proof {
            assert(all.take(i + 1).drop_last() =~= all.take(i as int));
            assert(all.take(i + 1).last() == parts@[i as int]@);
        }
        let words = parse_input(parts[i].as_str());
        match extract_redirections(&words) {
            Ok(c) => {
                let ghost done = commands.deep_view();
                commands.push(c);
                proof {
                    assert(commands.deep_view() =~= done.push(c@));
                }
            },
            Err(e) => {
                proof {
                    assert(stage_commands(all.take(i + 1)) == Err::<
                        Seq<CommandView>,
                        CommandError,
                    >(e));
                    lemma_stage_error_stays(all, i + 1);
                }
                return Err(e);
            },
        }
        i = i + 1;
    }
    proof {
        assert(all.take(parts@.len() as int) =~= all);
    }
    Ok(commands)
}

proof fn lemma_stage_commands_len(parts: Seq<Seq<char>>)
    ensures
        stage_commands(parts) matches Ok(commands) ==> {
            &&& commands.len() == parts.len()
            &&& forall|i: int| 0 <= i < commands.len() ==> (#[trigger] commands[i]).argv.len() > 0
        },
    decreases parts.len(),
{
    if parts.len() > 0 {
        lemma_stage_commands_len(parts.drop_last());
    }
}

/// A pipeline has two commands or more, as many as the line has stages, and
/// every command that is to run has at least one word.
pub proof fn lemma_route_shape(line: Seq<char>)
    ensures
        route_of(line) matches RouteView::Pipeline(commands) ==> {
            &&& commands.len() >= 2
            &&& commands.len() == stages(line).len()
            &&& forall|i: int| 0 <= i < commands.len() ==> (#[trigger] commands[i]).argv.len() > 0
        },
        route_of(line) matches RouteView::Single(command) ==> command.argv.len() > 0,
{
    lemma_split_commands(line);
    if let Ok(parts) = split_outcome(line) {
        lemma_stage_commands_len(parts);
    }
}

/// Decides how a line is to be run.
pub fn route_line(line: &str) -> (route: Route)
    ensures
        route@ == route_of(line@),
        route matches Route::Pipeline(commands) ==> commands@.len() >= 2,
{
    proof {
        lemma_route_shape(line@);
    }
    if has_pipeline(line) {
        match split_pipeline(line) {
            Err(e) => Route::Rejected(e.message()),
            Ok(parts) => match stage_list(&parts) {
                Ok(commands) => Route::Pipeline(commands),
                Err(e) => Route::Rejected(e.message()),
            },
        }
    } else {
        let words = parse_input(line);
        match extract_redirections(&words) {
            Ok(c) => Route::Single(c),
            Err(e) => Route::Rejected(e.message()),
        }
    }
}

proof fn lemma_stage_error_stays(parts: Seq<Seq<char>>, n: int)
    requires
        0 <= n <= parts.len(),
        stage_commands(parts.take(n)) is Err,
    ensures
        stage_commands(parts) == stage_commands(parts.take(n)),
    decreases parts.len() - n,
{
    if n < parts.len() {
        assert(parts.take(n + 1).drop_last() =~= parts.take(n));
        lemma_stage_error_stays(parts, n + 1);
    } else {
        assert(parts.take(n) =~= parts);
    }
}

/// The lines of a file: its pieces between line breaks, without the empty
/// piece behind a last line break.
pub open spec fn file_lines(text: Seq<char>) -> Seq<Seq<char>> {
    let all = pieces(text, '\n');
    if all.last().len() == 0 {
        all.drop_last()
    } else {
        all
    }
}

/// The history entries that a file holds: its lines, each without the
/// whitespace around it.
pub open spec fn history_entries_of(text: Seq<char>) -> Seq<Seq<char>> {
    Seq::new(file_lines(text).len(), |i: int| trim(file_lines(text)[i]))
}

/// Reads the history entries out of the text of a history file.
pub fn history_entries(text: &str) -> (entries: Vec<String>)
    ensures
        entries.deep_view() == history_entries_of(text@),
{
    let lines = split_on(text, '\n');
    proof {
        lemma_pieces_nonempty(text@, '\n');
        assert(lines.deep_view().len() == lines@.len());
        assert(lines.deep_view()[lines@.len() - 1] == lines@[lines@.len() - 1]@);
    }
    let count = if lines[lines.len() - 1].as_str().unicode_len() == 0 {
        lines.len() - 1
    } else {
        lines.len()
    };
    let ghost wanted = history_entries_of(text@);
    let mut entries: Vec<String> = Vec::new();
    let mut i: usize = 0;
    while i < count
        invariant
            lines.deep_view() == pieces(text@, '\n'),
            wanted == history_entries_of(text@),
            count == file_lines(text@).len(),
            count <= lines@.len(),
            i <= count,
            entries@.len() == i,
            forall|k: int| 0 <= k < i ==> (#[trigger] entries@[k])@ == wanted[k],
        decreases count - i,
    {
        proof {
            assert(lines.deep_view()[i as int] == lines@[i as int]@);
        }
        entries.push(trim_line(lines[i].as_str()));
        i = i + 1;
    }
    proof {
        assert(entries.deep_view() =~= wanted);
    }
    entries
}

} // verus!
