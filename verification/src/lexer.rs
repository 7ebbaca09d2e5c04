use vstd::prelude::*;
use crate::text::{chars_of, is_space, is_whitespace, join, string_of};

verus! {

/// What the lexer remembers between two characters of a line.
pub struct LexState {
    /// The words completed so far, oldest first.
    pub words: Seq<Seq<char>>,
    /// The characters of the word in progress.
    pub current: Seq<char>,
    /// Inside an open `'...'`.
    pub in_single: bool,
    /// Inside an open `"..."`.
    pub in_double: bool,
    /// The previous character was a backslash that still waits for the
    /// character it escapes.
    pub escaped: bool,
}

/// The state before the first character.
pub open spec fn lex_start() -> LexState {
    LexState {
        words: Seq::empty(),
        current: Seq::empty(),
        in_single: false,
        in_double: false,
        escaped: false,
    }
}

/// The characters that a backslash escapes inside double quotes.
pub open spec fn escapable_in_double(c: char) -> bool {
    c == '"' || c == '$' || c == '`' || c == '\\' || c == '\n'
}

/// One transition of the lexer on the character `c`.
pub open spec fn lex_step(st: LexState, c: char) -> LexState {
    if st.escaped {
        if st.in_double && !escapable_in_double(c) {
            LexState { current: st.current.push('\\').push(c), escaped: false, ..st }
        } else {
            LexState { current: st.current.push(c), escaped: false, ..st }
        }
    } else if c == '\\' && !st.in_single {
        LexState { escaped: true, ..st }
    } else if c == '\'' && !st.in_double {
        LexState { in_single: !st.in_single, ..st }
    } else if c == '"' && !st.in_single {
        LexState { in_double: !st.in_double, ..st }
    } else if is_space(c) && !st.in_single && !st.in_double {
        if st.current.len() > 0 {
            LexState { words: st.words.push(st.current), current: Seq::empty(), ..st }
        } else {
            st
        }
    } else {
        LexState { current: st.current.push(c), ..st }
    }
}

/// The state reached from `st` after the characters of `s`.
pub open spec fn lex_from(st: LexState, s: Seq<char>) -> LexState
    decreases s.len(),
{
    if s.len() == 0 {
        st
    } else {
        lex_step(lex_from(st, s.drop_last()), s.last())
    }
}

/// The word in progress at the end of input; a backslash with nothing after
/// it stands for itself.
pub open spec fn pending_word(st: LexState) -> Seq<char> {
    if st.escaped {
        st.current.push('\\')
    } else {
        st.current
    }
}

/// The words of a line whose scan ended in `st`. Open quotes are not an
/// error: the word in progress is emitted as it stands.
pub open spec fn lex_finish(st: LexState) -> Seq<Seq<char>> {
    if pending_word(st).len() > 0 {
        st.words.push(pending_word(st))
    } else {
        st.words
    }
}

/// The words of `line`.
pub open spec fn lex(line: Seq<char>) -> Seq<Seq<char>> {
    lex_finish(lex_from(lex_start(), line))
}

/// Scanning one more character is one more transition.
pub proof fn lemma_lex_from_push(st: LexState, s: Seq<char>, c: char)
    ensures
        lex_from(st, s.push(c)) == lex_step(lex_from(st, s), c),
{
    assert(s.push(c).drop_last() =~= s);
}

/// Scanning `a` and then `b` is scanning `a + b`.
pub proof fn lemma_lex_from_concat(st: LexState, a: Seq<char>, b: Seq<char>)
    ensures
        lex_from(st, a + b) == lex_from(lex_from(st, a), b),
    decreases b.len(),
{
    if b.len() == 0 {
        assert(a + b =~= a);
    } else {
        lemma_lex_from_concat(st, a, b.drop_last());
        assert((a + b).drop_last() =~= a + b.drop_last());
        assert((a + b).last() == b.last());
    }
}

/// Every word of `ws` has a character.
pub open spec fn no_empty_word(ws: Seq<Seq<char>>) -> bool {
    forall|i: int| 0 <= i < ws.len() ==> (#[trigger] ws[i]).len() > 0
}

proof fn lemma_completed_words_nonempty(line: Seq<char>)
    ensures
        no_empty_word(lex_from(lex_start(), line).words),
    decreases line.len(),
{
    if line.len() > 0 {
        lemma_completed_words_nonempty(line.drop_last());
        let before = lex_from(lex_start(), line.drop_last());
        let after = lex_from(lex_start(), line);
        assert forall|i: int| 0 <= i < after.words.len() implies (#[trigger] after.words[i]).len()
            > 0 by {
            if i < before.words.len() {
                assert(after.words[i] == before.words[i]);
            }
        }
    }
}

/// No word of a line is empty.
pub proof fn lemma_words_nonempty(line: Seq<char>)
    ensures
        no_empty_word(lex(line)),
{
    lemma_completed_words_nonempty(line);
    let st = lex_from(lex_start(), line);
    assert forall|i: int| 0 <= i < lex(line).len() implies (#[trigger] lex(line)[i]).len() > 0 by {
        if i < st.words.len() {
            assert(lex(line)[i] == st.words[i]);
        }
    }
}

/// A character that is neither a quote nor a backslash.
pub open spec fn is_plain(c: char) -> bool {
    c != '\\' && c != '\'' && c != '"'
}

/// A line without quotes and escapes.
pub open spec fn plain_line(s: Seq<char>) -> bool {
    forall|i: int| 0 <= i < s.len() ==> is_plain(#[trigger] s[i])
}

/// Characters that need no quoting: no quote, no backslash, no whitespace.
pub open spec fn bare_chars(w: Seq<char>) -> bool {
    forall|i: int| 0 <= i < w.len() ==> is_plain(#[trigger] w[i]) && !is_space(w[i])
}

/// A non-empty word that needs no quoting.
pub open spec fn bare_word(w: Seq<char>) -> bool {
    w.len() > 0 && bare_chars(w)
}

/// A list of words none of which needs quoting.
pub open spec fn bare_words(ws: Seq<Seq<char>>) -> bool {
    forall|i: int| 0 <= i < ws.len() ==> bare_word(#[trigger] ws[i])
}

/// A state outside quotes with no backslash waiting.
pub open spec fn unquoted(st: LexState) -> bool {
    !st.in_single && !st.in_double && !st.escaped
}

proof fn lemma_plain_line_state(s: Seq<char>)
    requires
        plain_line(s),
    ensures
        unquoted(lex_from(lex_start(), s)),
        bare_words(lex_from(lex_start(), s).words),
        bare_chars(lex_from(lex_start(), s).current),
    decreases s.len(),
{
    if s.len() > 0 {
        lemma_plain_line_state(s.drop_last());
        assert(is_plain(s[s.len() - 1]));
    }
}

proof fn lemma_run_bare_chars(st: LexState, w: Seq<char>)
    requires
        unquoted(st),
        bare_chars(w),
    ensures
        lex_from(st, w) == (LexState { current: st.current + w, ..st }),
    decreases w.len(),
{
    if w.len() == 0 {
        assert(st.current + w =~= st.current);
    } else {
        lemma_run_bare_chars(st, w.drop_last());
        assert(is_plain(w[w.len() - 1]));
        assert(st.current + w =~= (st.current + w.drop_last()).push(w.last()));
    }
}

proof fn lemma_joined_state(ws: Seq<Seq<char>>)
    requires
        bare_words(ws),
    ensures
        ws.len() == 0 ==> lex_from(lex_start(), join(ws, seq![' '])) == lex_start(),
        ws.len() > 0 ==> lex_from(lex_start(), join(ws, seq![' '])) == (LexState {
            words: ws.drop_last(),
            current: ws.last(),
            ..lex_start()
        }),
    decreases ws.len(),
{
    let sep = seq![' '];
    if ws.len() == 0 {
    } else if ws.len() == 1 {
        assert(bare_word(ws[0]));
        lemma_run_bare_chars(lex_start(), ws[0]);
        assert(Seq::<char>::empty() + ws[0] =~= ws[0]);
        assert(ws.drop_last() =~= Seq::<Seq<char>>::empty());
    } else {
        let head = ws.drop_last();
        assert forall|i: int| 0 <= i < head.len() implies bare_word(#[trigger] head[i]) by {
            assert(head[i] == ws[i]);
        }
        lemma_joined_state(head);
        let st = lex_from(lex_start(), join(head, sep));
        assert(bare_word(head[head.len() - 1]));
        assert(bare_word(ws[ws.len() - 1]));
        lemma_lex_from_concat(lex_start(), join(head, sep) + sep, ws.last());
        lemma_lex_from_concat(lex_start(), join(head, sep), sep);
        assert(sep =~= Seq::<char>::empty().push(' '));
        lemma_lex_from_push(st, Seq::<char>::empty(), ' ');
        assert(is_space(' '));
        let gap = lex_step(st, ' ');
        assert(gap.words =~= head);
        lemma_run_bare_chars(gap, ws.last());
        assert(Seq::<char>::empty() + ws.last() =~= ws.last());
    }
}

/// Words that need no quoting come back unchanged when they are written
/// with single spaces between them and lexed.
pub proof fn lemma_lex_of_joined_words(ws: Seq<Seq<char>>)
    requires
        bare_words(ws),
    ensures
        lex(join(ws, seq![' '])) == ws,
{
    lemma_joined_state(ws);
    if ws.len() > 0 {
        assert(bare_word(ws[ws.len() - 1]));
        assert(ws.drop_last().push(ws.last()) =~= ws);
    } else {
        assert(ws =~= Seq::<Seq<char>>::empty());
    }
}

/// The words of a line without quotes and escapes need no quoting.
pub proof fn lemma_plain_line_gives_bare_words(line: Seq<char>)
    requires
        plain_line(line),
    ensures
        bare_words(lex(line)),
{
    lemma_plain_line_state(line);
}

/// For a line without quotes and escapes, joining its words with single
/// spaces and lexing the result gives the same words again.
pub proof fn lemma_lex_join_roundtrip(line: Seq<char>)
    requires
        plain_line(line),
    ensures
        lex(join(lex(line), seq![' '])) == lex(line),
{
    lemma_plain_line_gives_bare_words(line);
    lemma_lex_of_joined_words(lex(line));
}

/// A quote left open at the end of input loses nothing: the word in progress
/// is the last word of the result, and closing the quote gives the same
/// words.
pub proof fn lemma_unterminated_quote(line: Seq<char>)
    ensures
        ({
            let st = lex_from(lex_start(), line);
            &&& pending_word(st).len() > 0 ==> lex(line) == st.words.push(pending_word(st))
            &&& pending_word(st).len() == 0 ==> lex(line) == st.words
            &&& st.in_single ==> lex(line.push('\'')) == lex(line)
            &&& st.in_double && !st.escaped ==> lex(line.push('"')) == lex(line)
        }),
{
    lemma_lex_from_push(lex_start(), line, '\'');
    lemma_lex_from_push(lex_start(), line, '"');
    lemma_single_quote_never_escaped(line);
}

proof fn lemma_single_quote_never_escaped(line: Seq<char>)
    ensures
        lex_from(lex_start(), line).in_single ==> !lex_from(lex_start(), line).escaped,
        !(lex_from(lex_start(), line).in_single && lex_from(lex_start(), line).in_double),
    decreases line.len(),
{
    if line.len() > 0 {
        lemma_single_quote_never_escaped(line.drop_last());
    }
}

/// Splits a line into words. Single quotes keep every character as it is,
/// double quotes keep all but the backslash escapes of `"`, `$`, `` ` ``,
/// `\` and newline, and outside quotes a backslash escapes the next
/// character and whitespace separates words.
pub fn parse_input(input: &str) -> (args: Vec<String>)
    ensures
        args.deep_view() == lex(input@),
{
    let chars = chars_of(input);
    let n = chars.len();
    let mut args: Vec<String> = Vec::new();
    let mut current: Vec<char> = Vec::new();
    let mut in_single = false;
    let mut in_double = false;
    let mut i: usize = 0;
    proof {
        assert(args.deep_view() =~= Seq::<Seq<char>>::empty());
        assert(chars@.take(0).len() == 0);
    }
    while i < n
        invariant
            n == chars@.len(),
            chars@ == input@,
            i <= n,
            lex_from(lex_start(), chars@.take(i as int)) == (LexState {
                words: args.deep_view(),
                current: current@,
                in_single,
                in_double,
                escaped: false,
            }),
        decreases n - i,
    {
        let ch = chars[i];
        proof {
            assert(chars@.take(i + 1) =~= chars@.take(i as int).push(ch));
            lemma_lex_from_push(lex_start(), chars@.take(i as int), ch);
        }
        if ch == '\\' && !in_single {
            if i + 1 < n {
                let next = chars[i + 1];
                proof {
                    assert(chars@.take(i + 2) =~= chars@.take(i + 1).push(next));
                    lemma_lex_from_push(lex_start(), chars@.take(i + 1), next);
                }
                if in_double && !(next == '"' || next == '$' || next == '`' || next == '\\'
                    || next == '\n') {
                    current.push('\\');
                }
                current.push(next);
                i = i + 2;
            } else {
                current.push('\\');
                let word = string_of(&current);
                let ghost done = args.deep_view();
                args.push(word);
                proof {
                    assert(chars@.take(n as int) =~= chars@);
                    assert(args.deep_view() =~= done.push(current@));
                }
                return args;
            }
        } else {
            if ch == '\'' && !in_double {
                in_single = !in_single;
            } else if ch == '"' && !in_single {
                in_double = !in_double;
            } else if is_whitespace(ch) && !in_single && !in_double {
                if current.len() > 0 {
                    let word = string_of(&current);
                    let ghost done = args.deep_view();
                    args.push(word);
                    proof {
                        assert(args.deep_view() =~= done.push(current@));
                    }
                    current = Vec::new();
                }
            } else {
                current.push(ch);
            }
            i = i + 1;
        }
    }
    proof {
        assert(chars@.take(n as int) =~= chars@);
    }
    if current.len() > 0 {
        let word = string_of(&current);
        let ghost done = args.deep_view();
        args.push(word);
        proof {
            assert(args.deep_view() =~= done.push(current@));
        }
    }
    args
}

} // verus!
