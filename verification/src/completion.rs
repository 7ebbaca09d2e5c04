use vstd::prelude::*;
use crate::order::{is_selection, select_matches, starts_with};
use crate::text::{chars_of, join, same_chars, same_text, string_of_range};

verus! {

broadcast use vstd::seq_lib::seq_to_set_is_finite;

/// One proposal of the completer: what the menu shows, and what replaces
/// the word under the cursor.
#[derive(Clone, Debug, PartialEq, Eq)]
pub struct Candidate {
    pub display: String,
    pub replacement: String,
}

/// A candidate as contracts speak of it.
pub struct CandidateView {
    pub display: Seq<char>,
    pub replacement: Seq<char>,
}

impl View for Candidate {
    type V = CandidateView;

    open spec fn view(&self) -> CandidateView {
        CandidateView { display: self.display@, replacement: self.replacement@ }
    }
}

impl DeepView for Candidate {
    type V = CandidateView;

    open spec fn deep_view(&self) -> CandidateView {
        self@
    }
}

/// What the terminal gets besides the candidates.
#[derive(Clone, Debug, PartialEq, Eq)]
pub enum Feedback {
    /// Nothing.
    Silent,
    /// The bell character.
    Bell,
    /// This text, which lists the matches and draws the prompt again.
    Listing(String),
}

/// A feedback as contracts speak of it.
pub enum FeedbackView {
    Silent,
    Bell,
    Listing(Seq<char>),
}

impl View for Feedback {
    type V = FeedbackView;

    open spec fn view(&self) -> FeedbackView {
        match self {
            Feedback::Silent => FeedbackView::Silent,
            Feedback::Bell => FeedbackView::Bell,
            Feedback::Listing(text) => FeedbackView::Listing(text@),
        }
    }
}

impl Feedback {
    /// The characters that the terminal gets: none, the bell character, or
    /// the listing.
    pub open spec fn terminal_text(self) -> Seq<char> {
        match self {
            Feedback::Silent => Seq::empty(),
            Feedback::Bell => seq!['\x07'],
            Feedback::Listing(text) => text@,
        }
    }

    /// The characters to write to the terminal.
    pub fn text(&self) -> (text: String)
        ensures
            text@ == self.terminal_text(),
    {
        match self {
            Feedback::Silent => String::new(),
            Feedback::Bell => {
                let mut bell = String::new();
                bell.push('\x07');
                bell
            },
            Feedback::Listing(text) => text.clone(),
        }
    }
}

/// The answer to one press of the tab key.
#[derive(Clone, Debug, PartialEq, Eq)]
pub struct Completion {
    /// Where the word under the cursor begins, in characters.
    pub start: usize,
    pub candidates: Vec<Candidate>,
    pub feedback: Feedback,
}

/// A completion as contracts speak of it.
pub struct CompletionView {
    pub start: int,
    pub candidates: Seq<CandidateView>,
    pub feedback: FeedbackView,
}

impl View for Completion {
    type V = CompletionView;

    open spec fn view(&self) -> CompletionView {
        CompletionView {
            start: self.start as int,
            candidates: self.candidates.deep_view(),
            feedback: self.feedback@,
        }
    }
}

/// Where the word that ends at `pos` begins: behind the last space before
/// `pos`, or at 0.
pub open spec fn word_start(line: Seq<char>, pos: int) -> int
    decreases pos,
{
    if pos <= 0 {
        0
    } else if line[pos - 1] == ' ' {
        pos
    } else {
        word_start(line, pos - 1)
    }
}

/// The word under the cursor as far as the cursor.
pub open spec fn word_prefix(line: Seq<char>, pos: int) -> Seq<char> {
    line.subrange(word_start(line, pos), pos)
}

fn find_word_start(chars: &Vec<char>, pos: usize) -> (start: usize)
    requires
        pos <= chars@.len(),
    ensures
        start == word_start(chars@, pos as int),
        start <= pos,
{
    let mut i: usize = pos;
    while i > 0 && chars[i - 1] != ' '
        invariant
            i <= pos <= chars@.len(),
            word_start(chars@, pos as int) == word_start(chars@, i as int),
        decreases i,
    {
        i = i - 1;
    }
    i
}

/// `name` alone if it begins with `prefix`, nothing otherwise.
pub open spec fn one_if_prefixed(prefix: Seq<char>, name: Seq<char>) -> Seq<Seq<char>> {
    if prefix.is_prefix_of(name) {
        seq![name]
    } else {
        Seq::empty()
    }
}

/// The built-in names that the completer offers and that begin with
/// `prefix`, in the order `echo`, `exit`, `type`, `pwd`, `cd`, `ls`.
pub open spec fn builtin_matches(prefix: Seq<char>) -> Seq<Seq<char>> {
    one_if_prefixed(prefix, "echo"@) + one_if_prefixed(prefix, "exit"@) + one_if_prefixed(
        prefix,
        "type"@,
    ) + one_if_prefixed(prefix, "pwd"@) + one_if_prefixed(prefix, "cd"@) + one_if_prefixed(
        prefix,
        "ls"@,
    )
}

fn push_if_prefixed(out: &mut Vec<String>, prefix: &str, name: &str)
    ensures
        final(out).deep_view() == old(out).deep_view() + one_if_prefixed(prefix@, name@),
{
    let ghost before = out.deep_view();
    if starts_with(name, prefix) {
        out.push(name.to_owned());
        proof {
            assert(out.deep_view() =~= before + seq![name@]);
        }
    } else {
        proof {
            assert(out.deep_view() =~= before + Seq::<Seq<char>>::empty());
        }
    }
}

fn find_builtin_matches(prefix: &str) -> (out: Vec<String>)
    ensures
        out.deep_view() == builtin_matches(prefix@),
{
    let mut out: Vec<String> = Vec::new();
    proof {
        assert(out.deep_view() =~= Seq::<Seq<char>>::empty());
        assert(Seq::<Seq<char>>::empty() + one_if_prefixed(prefix@, "echo"@) =~= one_if_prefixed(
            prefix@,
            "echo"@,
        ));
    }
    push_if_prefixed(&mut out, prefix, "echo");
    push_if_prefixed(&mut out, prefix, "exit");
    push_if_prefixed(&mut out, prefix, "type");
    push_if_prefixed(&mut out, prefix, "pwd");
    push_if_prefixed(&mut out, prefix, "cd");
    push_if_prefixed(&mut out, prefix, "ls");
    out
}

/// Each name as a candidate that is shown as it stands and inserted with a
/// space behind it.
pub open spec fn spaced(names: Seq<Seq<char>>) -> Seq<CandidateView> {
    Seq::new(
        names.len(),
        |i: int| CandidateView { display: names[i], replacement: names[i].push(' ') },
    )
}

fn with_space(names: &Vec<String>) -> (out: Vec<Candidate>)
    ensures
        out.deep_view() == spaced(names.deep_view()),
{
    let mut out: Vec<Candidate> = Vec::new();
    let mut i: usize = 0;
    while i < names.len()
        invariant
            i <= names@.len(),
            out@.len() == i,
            forall|k: int|
                0 <= k < i ==> (#[trigger] out@[k])@ == spaced(names.deep_view())[k],
        decreases names@.len() - i,
    {
        let mut replacement = names[i].clone();
        replacement.push(' ');
        out.push(Candidate { display: names[i].clone(), replacement });
        i = i + 1;
    }
    proof {
        assert(out.deep_view() =~= spaced(names.deep_view()));
    }
    out
}

/// Every string of `strings` has a character at `k`, the same in all.
pub open spec fn column_agrees(strings: Seq<Seq<char>>, k: int) -> bool {
    forall|i: int|
        0 <= i < strings.len() ==> k < (#[trigger] strings[i]).len() && strings[i][k]
            == strings[0][k]
}

/// The number of leading columns, below `limit`, in which the strings
/// agree.
pub open spec fn common_len(strings: Seq<Seq<char>>, limit: nat) -> nat
    decreases limit,
{
    if limit == 0 {
        0
    } else {
        let n = common_len(strings, (limit - 1) as nat);
        if n == limit - 1 && column_agrees(strings, limit - 1) {
            limit
        } else {
            n
        }
    }
}

/// The longest common prefix of the strings; empty for no strings.
pub open spec fn common_prefix(strings: Seq<Seq<char>>) -> Seq<char> {
    if strings.len() == 0 {
        Seq::empty()
    } else {
        strings[0].take(common_len(strings, strings[0].len()) as int)
    }
}

/// `p` begins every string of `strings`.
pub open spec fn begins_all(p: Seq<char>, strings: Seq<Seq<char>>) -> bool {
    forall|i: int| 0 <= i < strings.len() ==> p.is_prefix_of(#[trigger] strings[i])
}

proof fn lemma_common_len_bound(strings: Seq<Seq<char>>, limit: nat)
    ensures
        common_len(strings, limit) <= limit,
    decreases limit,
{
    if limit > 0 {
        lemma_common_len_bound(strings, (limit - 1) as nat);
    }
}

proof fn lemma_common_len_stops(strings: Seq<Seq<char>>, k: nat, limit: nat)
    requires
        common_len(strings, k) == k,
        !column_agrees(strings, k as int),
        k <= limit,
    ensures
        common_len(strings, limit) == k,
    decreases limit,
{
    if limit > k {
        lemma_common_len_stops(strings, k, (limit - 1) as nat);
    }
}

proof fn lemma_common_len_columns(strings: Seq<Seq<char>>, limit: nat, k: int)
    requires
        0 <= k < common_len(strings, limit),
    ensures
        column_agrees(strings, k),
    decreases limit,
{
    if limit > 0 {
        lemma_common_len_bound(strings, (limit - 1) as nat);
        if k < common_len(strings, (limit - 1) as nat) {
            lemma_common_len_columns(strings, (limit - 1) as nat, k);
        }
    }
}

proof fn lemma_common_len_maximal(strings: Seq<Seq<char>>, limit: nat)
    ensures
        common_len(strings, limit) < limit ==> !column_agrees(
            strings,
            common_len(strings, limit) as int,
        ),
    decreases limit,
{
    if limit > 0 {
        lemma_common_len_bound(strings, (limit - 1) as nat);
        lemma_common_len_maximal(strings, (limit - 1) as nat);
    }
}

/// The common prefix begins every string, and nothing longer does.
pub proof fn lemma_common_prefix_is_longest(strings: Seq<Seq<char>>)
    requires
        strings.len() > 0,
    ensures
        begins_all(common_prefix(strings), strings),
        forall|q: Seq<char>| #[trigger]
            begins_all(q, strings) ==> q.len() <= common_prefix(strings).len(),
{
    let first = strings[0];
    let n = common_len(strings, first.len());
    let p = common_prefix(strings);
    lemma_common_len_bound(strings, first.len());
    assert forall|i: int| 0 <= i < strings.len() implies p.is_prefix_of(
        #[trigger] strings[i],
    ) by {
        if n > 0 {
            lemma_common_len_columns(strings, first.len(), n - 1);
        }
        assert forall|k: int| 0 <= k < n implies strings[i][k] == first[k] by {
            lemma_common_len_columns(strings, first.len(), k);
        }
        assert(p =~= strings[i].subrange(0, p.len() as int));
    }
    assert forall|q: Seq<char>| #[trigger] begins_all(q, strings) implies q.len() <= p.len() by {
        assert(q.is_prefix_of(strings[0]));
        if q.len() > n {
            lemma_common_len_maximal(strings, first.len());
            assert forall|i: int| 0 <= i < strings.len() implies n < (#[trigger] strings[i]).len()
                && strings[i][n as int] == first[n as int] by {
                assert(q.is_prefix_of(strings[i]));
                assert(strings[i].subrange(0, q.len() as int)[n as int] == q[n as int]);
                assert(first.subrange(0, q.len() as int)[n as int] == q[n as int]);
            }
            assert(column_agrees(strings, n as int));
        }
    }
}

/// The characters of each string.
fn rows_of(strings: &[String]) -> (rows: Vec<Vec<char>>)
    ensures
        rows.deep_view() == strings.deep_view(),
{
    let mut rows: Vec<Vec<char>> = Vec::new();
    let mut i: usize = 0;
    while i < strings.len()
        invariant
            i <= strings@.len(),
            rows@.len() == i,
            forall|k: int| 0 <= k < i ==> (#[trigger] rows@[k]).deep_view() == strings@[k]@,
        decreases strings@.len() - i,
    {
        let row = chars_of(strings[i].as_str());
        proof {
            assert(row.deep_view() =~= row@);
        }
        rows.push(row);
        i = i + 1;
    }
    proof {
        assert(rows.deep_view() =~= strings.deep_view());
    }
    rows
}

/// The length of the longest common prefix of the rows, of which there is
/// at least one.
fn common_width(rows: &Vec<Vec<char>>) -> (width: usize)
    requires
        rows@.len() > 0,
    ensures
        width == common_len(rows.deep_view(), rows@[0]@.len()),
        width <= rows@[0]@.len(),
{
    let ghost all = rows.deep_view();
    let n = rows.len();
    let limit = rows[0].len();
    let mut k: usize = 0;
    let mut agreed = true;
    proof {
        assert(all[0] == rows@[0]@);
    }
    while agreed && k < limit
        invariant
            n == rows@.len(),
            n > 0,
            all == rows.deep_view(),
            limit == all[0].len(),
            k <= limit,
            common_len(all, k as nat) == k,
            !agreed ==> !column_agrees(all, k as int),
        decreases limit - k + if agreed { 1int } else { 0int },
    {
        let mut i: usize = 0;
        while agreed && i < n
            invariant
                n == rows@.len(),
                n > 0,
                all == rows.deep_view(),
                k < all[0].len(),
                i <= n,
                agreed ==> forall|j: int|
                    0 <= j < i ==> k < (#[trigger] all[j]).len() && all[j][k as int]
                        == all[0][k as int],
                !agreed ==> !column_agrees(all, k as int),
            decreases n - i + if agreed { 1int } else { 0int },
        {
            proof {
                assert(all[i as int] == rows@[i as int]@);
                assert(all[0] == rows@[0]@);
            }
            if k < rows[i].len() && rows[i][k] == rows[0][k] {
                i = i + 1;
            } else {
                agreed = false;
            }
        }
        if agreed {
            proof {
                assert(column_agrees(all, k as int));
            }
            k = k + 1;
        }
    }
    proof {
        if !agreed {
            lemma_common_len_stops(all, k as nat, limit as nat);
        }
    }
    k
}

/// The number of different rows.
fn count_distinct(rows: &Vec<Vec<char>>) -> (count: usize)
    ensures
        count == rows.deep_view().to_set().len(),
{
    let ghost all = rows.deep_view();
    let n = rows.len();
    let mut count: usize = 0;
    let mut i: usize = 0;
    proof {
        assert(all.take(0).to_set() =~= Set::<Seq<char>>::empty());
    }
    while i < n
        invariant
            n == rows@.len(),
            all == rows.deep_view(),
            i <= n,
            count <= i,
            count == all.take(i as int).to_set().len(),
        decreases n - i,
    {
        let mut seen = false;
        let mut j: usize = 0;
        while !seen && j < i
            invariant
                all == rows.deep_view(),
                j <= i < rows@.len(),
                seen ==> all.take(i as int).contains(all[i as int]),
                !seen ==> forall|m: int| 0 <= m < j ==> all[m] != all[i as int],
            decreases i - j + if seen { 0int } else { 1int },
        {
            proof {
                assert(all[i as int] == rows@[i as int]@);
                assert(all[j as int] == rows@[j as int]@);
            }
            if same_chars(&rows[j], &rows[i]) {
                seen = true;
                proof {
                    assert(all.take(i as int)[j as int] == all[i as int]);
                }
            } else {
                j = j + 1;
            }
        }
        proof {
            let head = all.take(i as int);
            let x = all[i as int];
            assert(all.take(i + 1) =~= head.push(x));
            head.lemma_push_to_set_commute(x);
            if seen {
                assert(head.to_set().contains(x));
                assert(head.to_set().insert(x) =~= head.to_set());
            } else {
                assert(!head.contains(x));
                assert(!head.to_set().contains(x));
            }
        }
        if !seen {
            count = count + 1;
        }
        i = i + 1;
    }
    proof {
        assert(all.take(n as int) =~= all);
    }
    count
}

/// The text that lists the matches: a line break, the matches with two
/// spaces between neighbours, a line break, and the prompt with the line as
/// it stands.
pub open spec fn listing(matches: Seq<Seq<char>>, line: Seq<char>) -> Seq<char> {
    seq!['\n'] + join(matches, "  "@) + seq!['\n'] + "$ "@ + line
}

/// The text that lists the matches and draws the prompt and the line
/// again.
pub fn matches_listing(matches: &Vec<String>, line: &str) -> (text: String)
    ensures
        text@ == listing(matches.deep_view(), line@),
{
    let mut text = String::new();
    text.push('\n');
    let ghost all = matches.deep_view();
    let mut i: usize = 0;
    proof {
        assert(all.take(0) =~= Seq::<Seq<char>>::empty());
        assert(text@ =~= seq!['\n'] + join(all.take(0), "  "@));
    }
    while i < matches.len()
        invariant
            all == matches.deep_view(),
            i <= matches@.len(),
            text@ == seq!['\n'] + join(all.take(i as int), "  "@),
        decreases matches@.len() - i,
    {
        proof {
            assert(all.take(i + 1).drop_last() =~= all.take(i as int));
            assert(all.take(i + 1).last() == matches@[i as int]@);
            if i == 0 {
                assert(seq!['\n'] + all.take(1)[0] =~= seq!['\n'] + join(all.take(0), "  "@)
                    + all.take(1)[0]);
            } else {
                assert(seq!['\n'] + (join(all.take(i as int), "  "@) + "  "@ + matches@[i as int]@)
                    =~= seq!['\n'] + join(all.take(i as int), "  "@) + "  "@
                    + matches@[i as int]@);
            }
        }
        if i > 0 {
            text.append("  ");
        }
        text.append(matches[i].as_str());
        i = i + 1;
    }
    proof {
        assert(all.take(matches@.len() as int) =~= all);
    }
    text.push('\n');
    text.append("$ ");
    text.append(line);
    proof {
        assert(text@ =~= listing(all, line@));
    }
    text
}

/// The completer's memory: the line of the last press of the tab key, and
/// whether that press rang the bell.
pub struct ShellCompleter {
    tab_count: u32,
    last_line: String,
}

/// A completer's memory as contracts speak of it.
pub struct CompleterView {
    /// 1 where the last press rang the bell over several matches, 0 else.
    pub tab_count: u32,
    /// The line of the last press.
    pub last_line: Seq<char>,
}

impl View for ShellCompleter {
    type V = CompleterView;

    closed spec fn view(&self) -> CompleterView {
        CompleterView { tab_count: self.tab_count, last_line: self.last_line@ }
    }
}

/// The answer to a press of the tab key on `line` with the cursor behind
/// `pos` characters, where `matches` are the programs found for the word
/// under the cursor, and the completer's memory after it.
///
/// Built-in names go first: if any begins with the word, all that do are
/// offered, each with a space behind it. Without programs the bell rings. One
/// program is offered with a space behind it. Of several, the longest
/// common prefix is offered as it stands if it is longer than the word; if
/// not, the first press rings the bell and a second press on the same line
/// lists the programs.
pub open spec fn decide(
    memory: CompleterView,
    line: Seq<char>,
    pos: int,
    matches: Seq<Seq<char>>,
) -> (CompleterView, CompletionView) {
    let start = word_start(line, pos);
    let prefix = word_prefix(line, pos);
    let second_press = line == memory.last_line && memory.tab_count >= 1;
    let settled = CompleterView { tab_count: 0, last_line: line };
    if builtin_matches(prefix).len() > 0 {
        (
            settled,
            CompletionView {
                start,
                candidates: spaced(builtin_matches(prefix)),
                feedback: FeedbackView::Silent,
            },
        )
    } else if matches.len() == 0 {
        (
            settled,
            CompletionView { start, candidates: Seq::empty(), feedback: FeedbackView::Bell },
        )
    } else if matches.len() == 1 {
        (
            settled,
            CompletionView { start, candidates: spaced(matches), feedback: FeedbackView::Silent },
        )
    } else if common_prefix(matches).len() > prefix.len() {
        (
            settled,
            CompletionView {
                start,
                candidates: seq![
                    CandidateView {
                        display: common_prefix(matches),
                        replacement: common_prefix(matches),
                    },
                ],
                feedback: FeedbackView::Silent,
            },
        )
    } else if !second_press {
        (
            CompleterView { tab_count: 1, last_line: line },
            CompletionView { start, candidates: Seq::empty(), feedback: FeedbackView::Bell },
        )
    } else {
        (
            settled,
            CompletionView {
                start,
                candidates: Seq::empty(),
                feedback: FeedbackView::Listing(listing(matches, line)),
            },
        )
    }
}

fn word_under_cursor(line: &str, pos: usize) -> (out: (usize, String))
    requires
        pos <= line@.len(),
    ensures
        out.0 == word_start(line@, pos as int),
        out.0 <= pos,
        out.1@ == word_prefix(line@, pos as int),
{
    let chars = chars_of(line);
    let start = find_word_start(&chars, pos);
    (start, string_of_range(&chars, start, pos))
}

impl ShellCompleter {
    /// A completer that has seen no press yet.
    pub fn new() -> (completer: ShellCompleter)
        ensures
            completer@ == (CompleterView { tab_count: 0, last_line: Seq::empty() }),
    {
        ShellCompleter { tab_count: 0, last_line: String::new() }
    }

    /// The longest common prefix of the strings, and the number of
    /// different strings among them.
    pub fn find_longest_common_prefix(strings: &[String]) -> (out: (String, usize))
        ensures
            out.0@ == common_prefix(strings.deep_view()),
            out.1 == strings.deep_view().to_set().len(),
    {
        let rows = rows_of(strings);
        let count = count_distinct(&rows);
        if rows.len() == 0 {
            return (String::new(), count);
        }
        let width = common_width(&rows);
        proof {
            assert(rows.deep_view()[0] == rows@[0]@);
            assert(rows@[0]@.take(width as int) =~= rows@[0]@.subrange(0, width as int));
        }
        (string_of_range(&rows[0], 0, width), count)
    }

    /// Whether a press of the tab key on `line` needs the names of the
    /// programs on the search path: it does where no built-in name begins
    /// with the word under the cursor.
    pub fn wants_path_names(line: &str, pos: usize) -> (wanted: bool)
        requires
            pos <= line@.len(),
        ensures
            wanted == (builtin_matches(word_prefix(line@, pos as int)).len() == 0),
    {
        let (_start, prefix) = word_under_cursor(line, pos);
        find_builtin_matches(prefix.as_str()).len() == 0
    }

    /// Answers a press of the tab key, given the programs that match the
    /// word under the cursor, and remembers the press.
    pub fn complete_with(&mut self, line: &str, pos: usize, matches: &Vec<String>) -> (answer:
        Completion)
        requires
            pos <= line@.len(),
        ensures
            (final(self)@, answer@) == decide(old(self)@, line@, pos as int, matches.deep_view()),
    {
        let (start, prefix) = word_under_cursor(line, pos);
        let second_press = same_text(line, self.last_line.as_str()) && self.tab_count >= 1;
        self.last_line = line.to_owned();
        self.tab_count = 0;
        let builtins = find_builtin_matches(prefix.as_str());
        if builtins.len() > 0 {
            return Completion {
                start,
                candidates: with_space(&builtins),
                feedback: Feedback::Silent,
            };
        }
        if matches.len() == 0 {
            let answer = Completion { start, candidates: Vec::new(), feedback: Feedback::Bell };
            proof {
                assert(answer.candidates.deep_view() =~= Seq::<CandidateView>::empty());
            }
            return answer;
        }
        if matches.len() == 1 {
            return Completion {
                start,
                candidates: with_space(matches),
                feedback: Feedback::Silent,
            };
        }
        let (common, _count) = Self::find_longest_common_prefix(matches.as_slice());
        if common.as_str().unicode_len() > prefix.as_str().unicode_len() {
            let mut candidates: Vec<Candidate> = Vec::new();
            candidates.push(Candidate { display: common.clone(), replacement: common });
            let answer = Completion { start, candidates, feedback: Feedback::Silent };
            proof {
                assert(answer.candidates.deep_view() =~= seq![
                    CandidateView {
                        display: common_prefix(matches.deep_view()),
                        replacement: common_prefix(matches.deep_view()),
                    },
                ]);
            }
            return answer;
        }
        if !second_press {
            self.tab_count = 1;
            let answer = Completion { start, candidates: Vec::new(), feedback: Feedback::Bell };
            proof {
                assert(answer.candidates.deep_view() =~= Seq::<CandidateView>::empty());
            }
            return answer;
        }
        let answer = Completion {
            start,
            candidates: Vec::new(),
            feedback: Feedback::Listing(matches_listing(matches, line)),
        };
        proof {
            assert(answer.candidates.deep_view() =~= Seq::<CandidateView>::empty());
        }
        answer
    }

    /// Answers a press of the tab key, given the names found in the
    /// directories of the search path: those that begin with the word under
    /// the cursor are put in order, each once, and the answer is decided on
    /// them.
    pub fn complete(&mut self, line: &str, pos: usize, names: &Vec<String>) -> (answer: Completion)
        requires
            pos <= line@.len(),
        ensures
            exists|matches: Seq<Seq<char>>|
                is_selection(names.deep_view(), word_prefix(line@, pos as int), matches) && (
                    final(self)@,
                    answer@,
                ) == #[trigger] decide(old(self)@, line@, pos as int, matches),
    {
        let (_start, prefix) = word_under_cursor(line, pos);
        let matches = select_matches(names, prefix.as_str());
        self.complete_with(line, pos, &matches)
    }
}

impl Default for ShellCompleter {
    fn default() -> (completer: ShellCompleter)
        ensures
            completer@ == (CompleterView { tab_count: 0, last_line: Seq::empty() }),
    {
        ShellCompleter::new()
    }
}

} // verus!
