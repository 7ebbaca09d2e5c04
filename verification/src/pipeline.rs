use vstd::prelude::*;
use crate::text::{chars_of, join, string_of, trim, trimmed_range};

verus! {

/// What a scan for pipe operators remembers between two characters.
pub struct QuoteState {
    /// Inside an open `'...'`.
    pub in_single: bool,
    /// Inside an open `"..."`.
    pub in_double: bool,
    /// The previous character was a backslash that escapes the next one.
    pub escaped: bool,
}

/// Outside quotes, nothing escaped.
pub open spec fn quote_start() -> QuoteState {
    QuoteState { in_single: false, in_double: false, escaped: false }
}

/// One transition of the scan on the character `c`.
pub open spec fn quote_step(q: QuoteState, c: char) -> QuoteState {
    if q.escaped {
        QuoteState { escaped: false, ..q }
    } else if c == '\\' && !q.in_single {
        QuoteState { escaped: true, ..q }
    } else if c == '\'' && !q.in_double {
        QuoteState { in_single: !q.in_single, ..q }
    } else if c == '"' && !q.in_single {
        QuoteState { in_double: !q.in_double, ..q }
    } else {
        q
    }
}

/// The state of the scan after the characters of `s`.
pub open spec fn quote_state(s: Seq<char>) -> QuoteState
    decreases s.len(),
{
    if s.len() == 0 {
        quote_start()
    } else {
        quote_step(quote_state(s.drop_last()), s.last())
    }
}

/// The character at `i` is a pipe operator: a `|` outside quotes that no
/// backslash escapes.
pub open spec fn is_pipe_at(s: Seq<char>, i: int) -> bool {
    0 <= i < s.len() && s[i] == '|' && quote_state(s.take(i)) == quote_start()
}

/// The stretches of `s` between its pipe operators, as they stand. There is
/// always one more of them than there are operators.
pub open spec fn stages(s: Seq<char>) -> Seq<Seq<char>>
    decreases s.len(),
{
    if s.len() == 0 {
        seq![Seq::empty()]
    } else {
        let before = stages(s.drop_last());
        if is_pipe_at(s, s.len() - 1) {
            before.push(Seq::empty())
        } else {
            before.update(before.len() - 1, before.last().push(s.last()))
        }
    }
}

/// The stages of `s`, each without the whitespace around it.
pub open spec fn trimmed_stages(s: Seq<char>) -> Seq<Seq<char>> {
    Seq::new(stages(s).len(), |i: int| trim(stages(s)[i]))
}

/// Stage `i` of `s` holds nothing but whitespace.
pub open spec fn blank_stage(s: Seq<char>, i: int) -> bool {
    0 <= i < stages(s).len() && trim(stages(s)[i]).len() == 0
}

/// Why a line cannot be split into a pipeline.
#[derive(Clone, Copy, PartialEq, Eq, Debug, Structural)]
pub enum PipelineError {
    /// The stage with this index, counted from 0, is empty. It is the first
    /// such stage.
    EmptyStage(usize),
    /// There are fewer than two commands to connect.
    TooFewCommands,
    /// A pipe or a fork failed, so that not every command was started.
    Incomplete,
}

impl PipelineError {
    /// The words that report the error.
    pub open spec fn message_text(self) -> Seq<char> {
        match self {
            PipelineError::EmptyStage(_) => "syntax error: empty command in pipeline"@,
            PipelineError::TooFewCommands => "Pipeline must have at least 2 commands"@,
            PipelineError::Incomplete => "could not start every command of the pipeline"@,
        }
    }

    /// The words that report the error.
    pub fn message(&self) -> (text: String)
        ensures
            text@ == self.message_text(),
    {
        match self {
            PipelineError::EmptyStage(_) => "syntax error: empty command in pipeline".to_owned(),
            PipelineError::TooFewCommands => "Pipeline must have at least 2 commands".to_owned(),
            PipelineError::Incomplete => "could not start every command of the pipeline".to_owned(),
        }
    }
}

proof fn lemma_quote_state_push(s: Seq<char>, c: char)
    ensures
        quote_state(s.push(c)) == quote_step(quote_state(s), c),
{
    assert(s.push(c).drop_last() =~= s);
}

proof fn lemma_pipe_at_prefix(s: Seq<char>, n: int, i: int)
    requires
        0 <= i < n <= s.len(),
    ensures
        is_pipe_at(s.take(n), i) == is_pipe_at(s, i),
{
    assert(s.take(n).take(i) =~= s.take(i));
}

proof fn lemma_stages_push(s: Seq<char>, c: char)
    ensures
        stages(s).len() >= 1,
        is_pipe_at(s.push(c), s.len() as int) ==> stages(s.push(c)) == stages(s).push(
            Seq::empty(),
        ),
        !is_pipe_at(s.push(c), s.len() as int) ==> stages(s.push(c)) == stages(s).update(
            stages(s).len() - 1,
            stages(s).last().push(c),
        ),
{
    lemma_stages_nonempty(s);
    assert(s.push(c).drop_last() =~= s);
}

/// A line has at least one stage.
pub proof fn lemma_stages_nonempty(s: Seq<char>)
    ensures
        stages(s).len() >= 1,
    decreases s.len(),
{
    if s.len() > 0 {
        lemma_stages_nonempty(s.drop_last());
    }
}

/// A line has two stages or more exactly when it holds a pipe operator.
pub proof fn lemma_stages_count(s: Seq<char>)
    ensures
        stages(s).len() >= 2 <==> exists|i: int| is_pipe_at(s, i),
    decreases s.len(),
{
    lemma_stages_nonempty(s);
    if s.len() > 0 {
        let head = s.drop_last();
        lemma_stages_count(head);
        lemma_stages_nonempty(head);
        let last = s.len() - 1;
        if stages(s).len() >= 2 {
            if is_pipe_at(s, last) {
            } else {
                let i = choose|i: int| is_pipe_at(head, i);
                lemma_pipe_at_prefix(s, last, i);
                assert(is_pipe_at(s, i));
            }
        }
        if exists|i: int| is_pipe_at(s, i) {
            let i = choose|i: int| is_pipe_at(s, i);
            if i < last {
                lemma_pipe_at_prefix(s, last, i);
                assert(is_pipe_at(head, i));
            }
        }
    }
}

/// Splitting loses nothing: the stages written with `|` between them are
/// the line.
pub proof fn lemma_stages_join(s: Seq<char>)
    ensures
        join(stages(s), seq!['|']) == s,
    decreases s.len(),
{
    let bar = seq!['|'];
    if s.len() == 0 {
        assert(stages(s)[0] =~= s);
    } else {
        let head = s.drop_last();
        let before = stages(head);
        lemma_stages_join(head);
        lemma_stages_nonempty(head);
        if is_pipe_at(s, s.len() - 1) {
            let after = before.push(Seq::empty());
            assert(after.drop_last() =~= before);
            assert(join(after, bar) == join(before, bar) + bar + Seq::<char>::empty());
            assert(head + bar + Seq::<char>::empty() =~= s);
        } else {
            let grown = before.last().push(s.last());
            let after = before.update(before.len() - 1, grown);
            if before.len() == 1 {
                assert(before[0] == head);
                assert(grown =~= s);
            } else {
                assert(after.drop_last() =~= before.drop_last());
                assert(join(before, bar) == join(before.drop_last(), bar) + bar + before.last());
                assert(join(after, bar) == join(before.drop_last(), bar) + bar + grown);
                assert(join(before.drop_last(), bar) + bar + grown =~= (join(
                    before.drop_last(),
                    bar,
                ) + bar + before.last()).push(s.last()));
                assert(head.push(s.last()) =~= s);
            }
        }
    }
}

/// Whether the line holds a pipe operator: a `|` outside single and double
/// quotes that no backslash escapes.
pub fn has_pipeline(input: &str) -> (found: bool)
    ensures
        found == exists|i: int| is_pipe_at(input@, i),
{
    let chars = chars_of(input);
    let n = chars.len();
    let mut in_single = false;
    let mut in_double = false;
    let mut i: usize = 0;
    proof {
        assert(chars@.take(0).len() == 0);
    }
    while i < n
        invariant
            n == chars@.len(),
            chars@ == input@,
            i <= n,
            forall|j: int| 0 <= j < i ==> !is_pipe_at(chars@, j),
            i < n ==> quote_state(chars@.take(i as int)) == (QuoteState {
                in_single,
                in_double,
                escaped: false,
            }),
        decreases n - i,
    {
        let ch = chars[i];
        proof {
            assert(chars@.take(i + 1) =~= chars@.take(i as int).push(ch));
            lemma_quote_state_push(chars@.take(i as int), ch);
        }
        if ch == '\\' && !in_single {
            if i + 1 < n {
                proof {
                    assert(chars@.take(i + 2) =~= chars@.take(i + 1).push(chars@[i + 1]));
                    lemma_quote_state_push(chars@.take(i + 1), chars@[i + 1]);
                }
                i = i + 2;
            } else {
                i = i + 1;
            }
        } else {
            if ch == '\'' && !in_double {
                in_single = !in_single;
            } else if ch == '"' && !in_single {
                in_double = !in_double;
            } else if ch == '|' && !in_single && !in_double {
                assert(is_pipe_at(chars@, i as int));
                return true;
            }
            i = i + 1;
        }
    }
    false
}

/// What `split_pipeline` returns for the line `s`.
pub open spec fn split_outcome(s: Seq<char>) -> Result<Seq<Seq<char>>, PipelineError> {
    if stages(s).len() == 1 && blank_stage(s, 0) {
        Ok(Seq::empty())
    } else if exists|i: int| blank_stage(s, i) {
        Err(PipelineError::EmptyStage(first_blank_stage(s) as usize))
    } else {
        Ok(trimmed_stages(s))
    }
}

/// The index of the first stage of `s` that holds nothing but whitespace.
pub open spec fn first_blank_stage(s: Seq<char>) -> int {
    choose|i: int| blank_stage(s, i) && forall|j: int| 0 <= j < i ==> !blank_stage(s, j)
}

/// A line that splits has two commands or more exactly when it holds a
/// pipe operator, and none of its commands is empty.
pub proof fn lemma_split_commands(s: Seq<char>)
    ensures
        split_outcome(s) matches Ok(v) ==> {
            &&& v.len() >= 2 <==> exists|i: int| is_pipe_at(s, i)
            &&& forall|k: int| 0 <= k < v.len() ==> (#[trigger] v[k]).len() > 0
        },
{
    lemma_stages_count(s);
    lemma_stages_nonempty(s);
    if let Ok(v) = split_outcome(s) {
        if v.len() > 0 {
            assert(v == trimmed_stages(s));
            assert forall|k: int| 0 <= k < v.len() implies (#[trigger] v[k]).len() > 0 by {
                assert(!blank_stage(s, k));
            }
        }
    }
}

/// Splits a line at its pipe operators into the commands of a pipeline, each
/// without the whitespace around it and otherwise as it stands in the line.
/// A line of whitespace alone has no commands. A line with a pipe operator
/// and nothing but whitespace before it, after it or between two of them is
/// refused.
pub fn split_pipeline(input: &str) -> (result: Result<Vec<String>, PipelineError>)
    ensures
        match result {
            Ok(commands) => split_outcome(input@) == Ok::<Seq<Seq<char>>, PipelineError>(
                commands.deep_view(),
            ),
            Err(e) => split_outcome(input@) == Err::<Seq<Seq<char>>, PipelineError>(e),
        },
{
    let chars = chars_of(input);
    let n = chars.len();
    let mut commands: Vec<String> = Vec::new();
    let mut first_blank: Option<usize> = None;
    let mut in_single = false;
    let mut in_double = false;
    let mut escaped = false;
    let mut start: usize = 0;
    let mut i: usize = 0;
    let ghost s = chars@;
    proof {
        assert(s.take(0).len() == 0);
        assert(s.subrange(0, 0) =~= Seq::<char>::empty());
        assert(stages(s.take(0)) =~= seq![s.subrange(0, 0)]);
        assert(commands.deep_view() =~= Seq::<Seq<char>>::empty());
    }
    while i < n
        invariant
            n == s.len(),
            s == chars@,
            s == input@,
            start <= i <= n,
            quote_state(s.take(i as int)) == (QuoteState { in_single, in_double, escaped }),
            stages(s.take(i as int)).len() == commands@.len() + 1,
            stages(s.take(i as int)).last() == s.subrange(start as int, i as int),
            forall|k: int|
                0 <= k < commands@.len() ==> (#[trigger] commands.deep_view()[k]) == trim(
                    stages(s.take(i as int))[k],
                ),
            commands.deep_view().len() == commands@.len(),
            match first_blank {
                Some(b) => b < commands@.len() && trim(stages(s.take(i as int))[b as int]).len()
                    == 0 && forall|j: int|
                    0 <= j < b ==> trim(#[trigger] stages(s.take(i as int))[j]).len() > 0,
                None => forall|j: int|
                    0 <= j < commands@.len() ==> trim(
                        #[trigger] stages(s.take(i as int))[j],
                    ).len() > 0,
            },
        decreases n - i,
    {
        let ch = chars[i];
        proof {
            assert(s.take(i + 1) =~= s.take(i as int).push(ch));
            assert(s.take(i + 1).take(i as int) =~= s.take(i as int));
            lemma_quote_state_push(s.take(i as int), ch);
            lemma_stages_push(s.take(i as int), ch);
        }
        if escaped {
            escaped = false;
        } else if ch == '\\' && !in_single {
            escaped = true;
        } else if ch == '\'' && !in_double {
            in_single = !in_single;
        } else if ch == '"' && !in_single {
            in_double = !in_double;
        } else if ch == '|' && !in_single && !in_double {
            let piece = trimmed_range(&chars, start, i);
            if piece.len() == 0 && first_blank.is_none() {
                first_blank = Some(commands.len());
            }
            let ghost done = commands.deep_view();
            commands.push(string_of(&piece));
            start = i + 1;
            proof {
                assert(is_pipe_at(s.take(i + 1), i as int));
                assert(commands.deep_view() =~= done.push(piece@));
                assert(s.subrange(start as int, i + 1) =~= Seq::<char>::empty());
            }
        }
        proof {
            if start <= i {
                assert(!is_pipe_at(s.take(i + 1), i as int));
                assert(s.subrange(start as int, i + 1) =~= s.subrange(
                    start as int,
                    i as int,
                ).push(ch));
            }
        }
        i = i + 1;
    }
    proof {
        assert(s.take(n as int) =~= s);
    }
    let piece = trimmed_range(&chars, start, n);
    let count = commands.len();
    if count == 0 && piece.len() == 0 {
        proof {
            assert(blank_stage(s, 0));
            assert(commands.deep_view() =~= Seq::<Seq<char>>::empty());
        }
        return Ok(commands);
    }
    if piece.len() == 0 && first_blank.is_none() {
        first_blank = Some(count);
    }
    match first_blank {
        Some(b) => {
            proof {
                assert(blank_stage(s, b as int));
                assert(forall|j: int| 0 <= j < b ==> !blank_stage(s, j));
                let f = first_blank_stage(s);
                assert(blank_stage(s, f) && forall|j: int| 0 <= j < f ==> !blank_stage(s, j));
                assert(f == b);
            }
            Err(PipelineError::EmptyStage(b))
        },
        None => {
            let ghost done = commands.deep_view();
            commands.push(string_of(&piece));
            proof {
                assert(commands.deep_view() =~= done.push(piece@));
                assert(commands.deep_view() =~= trimmed_stages(s));
                assert(forall|j: int| !blank_stage(s, j));
            }
            Ok(commands)
        },
    }
}

} // verus!
