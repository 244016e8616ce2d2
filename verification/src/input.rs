//! Reading a command line: splitting it into words with the shell's quoting
//! rules, and picking out the redirections of standard output and error.

use vstd::prelude::*;
use crate::text::{TrimSet, chars_of, is_whitespace, string_of, trimmed_bounds};

verus! {

/// Where the lexer stands with respect to quotes.
#[derive(Clone, Copy, PartialEq, Eq, Structural)]
pub enum QuoteState {
    /// Outside any quotes: white space separates words.
    NoQuote,
    /// Inside single quotes: every character is literal.
    Single,
    /// Inside double quotes: a backslash escapes `\`, `$`, `"` and a newline.
    Double,
}

/// `words` with `word` added at the end, unless `word` is empty.
pub open spec fn close_word(word: Seq<char>, words: Seq<Seq<char>>) -> Seq<Seq<char>> {
    if word.len() == 0 {
        words
    } else {
        words.push(word)
    }
}

/// The characters that a backslash escapes inside double quotes.
pub open spec fn escapable_in_double_quotes(c: char) -> bool {
    c == '\\' || c == '$' || c == '"' || c == '\n'
}

/// The words that the lexer produces from `rest`, when it is in `state`,
/// has collected `word` for the word in progress and `words` before it.
pub open spec fn lex(
    rest: Seq<char>,
    state: QuoteState,
    word: Seq<char>,
    words: Seq<Seq<char>>,
) -> Seq<Seq<char>>
    decreases rest.len(),
{
    if rest.len() == 0 {
        close_word(word, words)
    } else {
        let c = rest[0];
        let next = rest.drop_first();
        match state {
            QuoteState::NoQuote => {
                if crate::text::is_white_space(c) {
                    lex(next, QuoteState::NoQuote, seq![], close_word(word, words))
                } else if c == '\'' {
                    lex(next, QuoteState::Single, word, words)
                } else if c == '"' {
                    lex(next, QuoteState::Double, word, words)
                } else if c == '\\' {
                    if rest.len() >= 2 {
                        lex(rest.skip(2), QuoteState::NoQuote, word.push(rest[1]), words)
                    } else {
                        lex(next, QuoteState::NoQuote, word, words)
                    }
                } else {
                    lex(next, QuoteState::NoQuote, word.push(c), words)
                }
            },
            QuoteState::Single => {
                if c == '\'' {
                    lex(next, QuoteState::NoQuote, word, words)
                } else {
                    lex(next, QuoteState::Single, word.push(c), words)
                }
            },
            QuoteState::Double => {
                if c == '"' {
                    lex(next, QuoteState::NoQuote, word, words)
                } else if c == '\\' && rest.len() >= 2 && escapable_in_double_quotes(rest[1]) {
                    lex(rest.skip(2), QuoteState::Double, word.push(rest[1]), words)
                } else {
                    lex(next, QuoteState::Double, word.push(c), words)
                }
            },
        }
    }
}

/// The words of a command line: the line is trimmed, then read from the
/// start outside any quotes with no word begun.
pub open spec fn split_words(line: Seq<char>) -> Seq<Seq<char>> {
    lex(crate::text::trim(line), QuoteState::NoQuote, seq![], seq![])
}

/// Splits a command line into words. Outside quotes, white space separates
/// words and a backslash takes the next character literally (a backslash at
/// the very end is dropped); single quotes keep everything literally; inside
/// double quotes a backslash escapes only `\`, `$`, `"` and a newline. Empty
/// words are never produced. An unclosed quote runs to the end of the line.
pub fn split_command_line(line: &str) -> (words: Vec<String>)
    ensures
        crate::text::texts(words@) == split_words(line@),
{
    let all = chars_of(line);
    let (lo, hi) = trimmed_bounds(all.as_slice(), TrimSet::WhiteSpace);
    let ghost s = all@.subrange(lo as int, hi as int);
    let mut words: Vec<String> = Vec::new();
    let mut word: Vec<char> = Vec::new();
    let mut state = QuoteState::NoQuote;
    let mut i = lo;
    assert(crate::text::texts(words@) =~= Seq::<Seq<char>>::empty());
    assert(word@ =~= Seq::<char>::empty());
    while i < hi
        invariant
            lo <= i <= hi <= all@.len(),
            s == all@.subrange(lo as int, hi as int),
            s == crate::text::trim(line@),
            all@ == line@,
            lex(all@.subrange(i as int, hi as int), state, word@, crate::text::texts(words@)) == lex(
                s,
                QuoteState::NoQuote,
                seq![],
                seq![],
            ),
        decreases hi - i,
    {
        let ghost rest = all@.subrange(i as int, hi as int);
        let ghost before = crate::text::texts(words@);
        assert(rest[0] == all@[i as int]);
        assert(rest.drop_first() =~= all@.subrange(i + 1, hi as int));
        if i + 1 < hi {
            assert(rest[1] == all@[i + 1]);
            assert(rest.skip(2) =~= all@.subrange(i + 2, hi as int));
        }
        let c = all[i];
        match state {
            QuoteState::NoQuote => {
                if is_whitespace(c) {
                    if word.len() > 0 {
                        let w = string_of(word.as_slice(), 0, word.len());
                        assert(word@.subrange(0, word@.len() as int) =~= word@);
                        words.push(w);
                        assert(crate::text::texts(words@) =~= before.push(word@));
                        word = Vec::new();
                    }
                    assert(word@ =~= Seq::<char>::empty());
                    i += 1;
                } else if c == '\'' {
                    state = QuoteState::Single;
                    i += 1;
                } else if c == '"' {
                    state = QuoteState::Double;
                    i += 1;
                } else if c == '\\' {
                    if i + 1 < hi {
                        word.push(all[i + 1]);
                        i += 2;
                    } else {
                        i += 1;
                    }
                } else {
                    word.push(c);
                    i += 1;
                }
            },
            QuoteState::Single => {
                if c == '\'' {
                    state = QuoteState::NoQuote;
                } else {
                    word.push(c);
                }
                i += 1;
            },
            QuoteState::Double => {
                if c == '"' {
                    state = QuoteState::NoQuote;
                    i += 1;
                } else if c == '\\' && i + 1 < hi && (all[i + 1] == '\\' || all[i + 1] == '$'
                    || all[i + 1] == '"' || all[i + 1] == '\n') {
                    word.push(all[i + 1]);
                    i += 2;
                } else {
                    word.push(c);
                    i += 1;
                }
            },
        }
    }
    assert(all@.subrange(i as int, hi as int).len() == 0);
    let ghost before = crate::text::texts(words@);
    if word.len() > 0 {
        let w = string_of(word.as_slice(), 0, word.len());
        assert(word@.subrange(0, word@.len() as int) =~= word@);
        words.push(w);
        assert(crate::text::texts(words@) =~= before.push(word@));
    }
    words
}

/// Where a stream of a command goes, as plain texts.
pub enum Redirection {
    /// The terminal.
    Console,
    /// The file at this path, truncated first.
    File(Seq<char>),
    /// The file at this path, written at its end.
    AppendToFile(Seq<char>),
}

/// Where a stream of a command goes.
#[derive(Debug)]
pub enum OutputLocation {
    /// The terminal.
    Console,
    /// The file at this path, truncated first (`>`).
    File(String),
    /// The file at this path, written at its end (`>>`).
    AppendToFile(String),
}

impl View for OutputLocation {
    type V = Redirection;

    open spec fn view(&self) -> Redirection {
        match self {
            OutputLocation::Console => Redirection::Console,
            OutputLocation::File(p) => Redirection::File(p@),
            OutputLocation::AppendToFile(p) => Redirection::AppendToFile(p@),
        }
    }
}

impl OutputLocation {
    /// The path of the file that the stream goes to, if it goes to one.
    pub fn get_filepath(&self) -> (r: Option<&str>)
        ensures
            match self@ {
                Redirection::Console => r is None,
                Redirection::File(p) => r matches Some(q) && q@ == p,
                Redirection::AppendToFile(p) => r matches Some(q) && q@ == p,
            },
    {
        match self {
            OutputLocation::File(filepath) => Some(filepath.as_str()),
            OutputLocation::AppendToFile(filepath) => Some(filepath.as_str()),
            _ => None,
        }
    }
}

/// The redirection operators that a command line may hold.
#[derive(Clone, Copy, PartialEq, Eq, Structural)]
pub enum RedirectOp {
    /// `>` or `1>`: standard output to a file, truncated first.
    Stdout,
    /// `>>`: standard output to the end of a file.
    StdoutAppend,
    /// `2>`: standard error to a file, truncated first.
    Stderr,
    /// `2>>`: standard error to the end of a file.
    StderrAppend,
}

/// The redirection operator that the word `t` is, if it is one.
pub open spec fn redirect_op(t: Seq<char>) -> Option<RedirectOp> {
    if t == seq!['>'] || t == seq!['1', '>'] {
        Some(RedirectOp::Stdout)
    } else if t == seq!['>', '>'] {
        Some(RedirectOp::StdoutAppend)
    } else if t == seq!['2', '>'] {
        Some(RedirectOp::Stderr)
    } else if t == seq!['2', '>', '>'] {
        Some(RedirectOp::StderrAppend)
    } else {
        None
    }
}

/// The redirection operator that the word `t` is, if it is one.
pub fn classify_word(t: &str) -> (r: Option<RedirectOp>)
    ensures
        r == redirect_op(t@),
{
    let v = chars_of(t);
    let n = v.len();
    if n == 1 && v[0] == '>' {
        assert(v@ =~= seq!['>']);
        Some(RedirectOp::Stdout)
    } else if n == 2 && v[0] == '1' && v[1] == '>' {
        assert(v@ =~= seq!['1', '>']);
        Some(RedirectOp::Stdout)
    } else if n == 2 && v[0] == '>' && v[1] == '>' {
        assert(v@ =~= seq!['>', '>']);
        Some(RedirectOp::StdoutAppend)
    } else if n == 2 && v[0] == '2' && v[1] == '>' {
        assert(v@ =~= seq!['2', '>']);
        Some(RedirectOp::Stderr)
    } else if n == 3 && v[0] == '2' && v[1] == '>' && v[2] == '>' {
        assert(v@ =~= seq!['2', '>', '>']);
        Some(RedirectOp::StderrAppend)
    } else {
        assert(v@ != seq!['>']);
        assert(v@ != seq!['1', '>']);
        assert(v@ != seq!['>', '>']);
        assert(v@ != seq!['2', '>']);
        assert(v@ != seq!['2', '>', '>']);
        None
    }
}

/// The words left, and where standard output and error go, after reading the
/// redirections of `words` from the front, having kept `kept` and set `out`
/// and `err` so far. An operator takes the word after it as its path; the
/// later of two redirections of one stream wins; an operator with no word
/// after it is dropped.
pub open spec fn redirect(
    words: Seq<Seq<char>>,
    kept: Seq<Seq<char>>,
    out: Redirection,
    err: Redirection,
) -> (Seq<Seq<char>>, Redirection, Redirection)
    decreases words.len(),
{
    if words.len() == 0 {
        (kept, out, err)
    } else {
        match redirect_op(words[0]) {
            None => redirect(words.drop_first(), kept.push(words[0]), out, err),
            Some(op) => {
                if words.len() >= 2 {
                    let path = words[1];
                    match op {
                        RedirectOp::Stdout => redirect(
                            words.skip(2),
                            kept,
                            Redirection::File(path),
                            err,
                        ),
                        RedirectOp::StdoutAppend => redirect(
                            words.skip(2),
                            kept,
                            Redirection::AppendToFile(path),
                            err,
                        ),
                        RedirectOp::Stderr => redirect(
                            words.skip(2),
                            kept,
                            out,
                            Redirection::File(path),
                        ),
                        RedirectOp::StderrAppend => redirect(
                            words.skip(2),
                            kept,
                            out,
                            Redirection::AppendToFile(path),
                        ),
                    }
                } else {
                    redirect(words.drop_first(), kept, out, err)
                }
            },
        }
    }
}

/// The arguments of a command, and where its standard output and error go,
/// read from the words after the command's name.
pub open spec fn redirections(words: Seq<Seq<char>>) -> (
    Seq<Seq<char>>,
    Redirection,
    Redirection,
) {
    redirect(words, seq![], Redirection::Console, Redirection::Console)
}

/// Takes the redirections out of `tokens`: returns the other words, in
/// order, and where standard output and standard error go (the terminal
/// unless redirected).
pub fn set_output_locations(tokens: Vec<String>) -> (r: (Vec<String>, OutputLocation, OutputLocation))
    ensures
        (crate::text::texts(r.0@), r.1@, r.2@) == redirections(crate::text::texts(tokens@)),
{
    let mut output_location = OutputLocation::Console;
    let mut error_location = OutputLocation::Console;
    let mut filtered_tokens: Vec<String> = Vec::new();
    let ghost all = crate::text::texts(tokens@);
    let n = tokens.len();
    let mut i: usize = 0;
    assert(all.subrange(0, n as int) =~= all);
    assert(crate::text::texts(filtered_tokens@) =~= Seq::<Seq<char>>::empty());
    while i < n
        invariant
            n == tokens@.len(),
            all == crate::text::texts(tokens@),
            i <= n,
            redirect(
                all.subrange(i as int, n as int),
                crate::text::texts(filtered_tokens@),
                output_location@,
                error_location@,
            ) == redirections(all),
        decreases n - i,
    {
        let ghost rest = all.subrange(i as int, n as int);
        let ghost kept = crate::text::texts(filtered_tokens@);
        assert(rest[0] == tokens@[i as int]@);
        assert(rest.drop_first() =~= all.subrange(i + 1, n as int));
        if i + 1 < n {
            assert(rest[1] == tokens@[i + 1]@);
            assert(rest.skip(2) =~= all.subrange(i + 2, n as int));
        }
        match classify_word(tokens[i].as_str()) {
            None => {
                filtered_tokens.push(tokens[i].clone());
                assert(crate::text::texts(filtered_tokens@) =~= kept.push(rest[0]));
                i += 1;
            },
            Some(op) => {
                if i + 1 < n {
                    let path = tokens[i + 1].clone();
                    match op {
                        RedirectOp::Stdout => {
                            output_location = OutputLocation::File(path);
                        },
                        RedirectOp::StdoutAppend => {
                            output_location = OutputLocation::AppendToFile(path);
                        },
                        RedirectOp::Stderr => {
                            error_location = OutputLocation::File(path);
                        },
                        RedirectOp::StderrAppend => {
                            error_location = OutputLocation::AppendToFile(path);
                        },
                    }
                    i += 2;
                } else {
                    i += 1;
                }
            },
        }
    }
    (filtered_tokens, output_location, error_location)
}

/// A command, as plain texts.
pub struct CommandModel {
    /// The command's name.
    pub head: Option<Seq<char>>,
    /// The command's arguments.
    pub tail: Seq<Seq<char>>,
    /// Where standard output goes.
    pub output_location: Redirection,
    /// Where standard error goes.
    pub error_location: Redirection,
}

/// A command read from a command line.
pub struct MyCommand {
    /// The command's name: the first word of the line.
    pub head: Option<String>,
    /// The command's arguments: the words after the first, without the
    /// redirections.
    pub tail: Vec<String>,
    /// Where standard output goes.
    pub output_location: OutputLocation,
    /// Where standard error goes.
    pub error_location: OutputLocation,
}

/// The text of an optional string.
pub open spec fn opt_text(s: Option<String>) -> Option<Seq<char>> {
    match s {
        Some(t) => Some(t@),
        None => None,
    }
}

impl View for MyCommand {
    type V = CommandModel;

    open spec fn view(&self) -> CommandModel {
        CommandModel {
            head: opt_text(self.head),
            tail: crate::text::texts(self.tail@),
            output_location: self.output_location@,
            error_location: self.error_location@,
        }
    }
}

/// The command that a line holds: none where the line has no word; else the
/// first word names the command and the others, without the redirections,
/// are its arguments.
pub open spec fn parse_command(line: Seq<char>) -> Option<CommandModel> {
    let words = split_words(line);
    if words.len() == 0 {
        None
    } else {
        let (tail, out, err) = redirections(words.drop_first());
        Some(CommandModel { head: Some(words[0]), tail, output_location: out, error_location: err })
    }
}

/// Reads the command on `input`: `None` where the line holds no word (it is
/// empty, all white space, or only empty quotes).
pub fn parse_input(input: &str) -> (r: Option<(Option<String>, Vec<String>, OutputLocation, OutputLocation)>)
    ensures
        match parse_command(input@) {
            None => r is None,
            Some(m) => r matches Some(t) && (CommandModel {
                head: opt_text(t.0),
                tail: crate::text::texts(t.1@),
                output_location: t.2@,
                error_location: t.3@,
            }) == m,
        },
{
    let mut tokens = split_command_line(input);
    if tokens.len() == 0 {
        return None;
    }
    let ghost words = crate::text::texts(tokens@);
    let head = tokens.remove(0);
    assert(crate::text::texts(tokens@) =~= words.drop_first());
    let (filtered_tokens, output_location, error_location) = set_output_locations(tokens);
    Some((Some(head), filtered_tokens, output_location, error_location))
}

impl MyCommand {
    /// The command on `input`, which must hold at least one word.
    pub fn new(input: &str) -> (r: Self)
        requires
            parse_command(input@) is Some,
        ensures
            r@ == parse_command(input@).unwrap(),
    {
        let (head, tail, output_location, error_location) = parse_input(input).unwrap();
        Self { head, tail, output_location, error_location }
    }
}

/// Whether every word in `words` holds at least one character.
pub open spec fn all_nonempty(words: Seq<Seq<char>>) -> bool {
    forall|i: int| 0 <= i < words.len() ==> #[trigger] words[i].len() > 0
}

proof fn lemma_lex_nonempty(
    rest: Seq<char>,
    state: QuoteState,
    word: Seq<char>,
    words: Seq<Seq<char>>,
)
    requires
        all_nonempty(words),
    ensures
        all_nonempty(lex(rest, state, word, words)),
    decreases rest.len(),
{
    assert(all_nonempty(close_word(word, words)));
    if rest.len() > 0 {
        let c = rest[0];
        let next = rest.drop_first();
        match state {
            QuoteState::NoQuote => {
                if crate::text::is_white_space(c) {
                    lemma_lex_nonempty(next, QuoteState::NoQuote, seq![], close_word(word, words));
                } else if c == '\'' {
                    lemma_lex_nonempty(next, QuoteState::Single, word, words);
                } else if c == '"' {
                    lemma_lex_nonempty(next, QuoteState::Double, word, words);
                } else if c == '\\' {
                    if rest.len() >= 2 {
                        lemma_lex_nonempty(rest.skip(2), QuoteState::NoQuote, word.push(rest[1]), words);
                    } else {
                        lemma_lex_nonempty(next, QuoteState::NoQuote, word, words);
                    }
                } else {
                    lemma_lex_nonempty(next, QuoteState::NoQuote, word.push(c), words);
                }
            },
            QuoteState::Single => {
                if c == '\'' {
                    lemma_lex_nonempty(next, QuoteState::NoQuote, word, words);
                } else {
                    lemma_lex_nonempty(next, QuoteState::Single, word.push(c), words);
                }
            },
            QuoteState::Double => {
                if c == '"' {
                    lemma_lex_nonempty(next, QuoteState::NoQuote, word, words);
                } else if c == '\\' && rest.len() >= 2 && escapable_in_double_quotes(rest[1]) {
                    lemma_lex_nonempty(rest.skip(2), QuoteState::Double, word.push(rest[1]), words);
                } else {
                    lemma_lex_nonempty(next, QuoteState::Double, word.push(c), words);
                }
            },
        }
    }
}

/// Splitting a command line never gives an empty word: empty quotes alone
/// make no word.
pub proof fn law_words_are_nonempty(line: Seq<char>)
    ensures
        all_nonempty(split_words(line)),
{
    lemma_lex_nonempty(crate::text::trim(line), QuoteState::NoQuote, seq![], seq![]);
}

/// Whether `c` stands for itself outside quotes: it is no white space, no
/// quote and no backslash.
pub open spec fn is_plain_char(c: char) -> bool {
    !crate::text::is_white_space(c) && c != '\'' && c != '"' && c != '\\'
}

/// Whether `w` is a non-empty word of characters that stand for themselves
/// outside quotes.
pub open spec fn is_plain_word(w: Seq<char>) -> bool {
    w.len() > 0 && forall|i: int| 0 <= i < w.len() ==> #[trigger] is_plain_char(w[i])
}

proof fn lemma_lex_plain_run(
    p: Seq<char>,
    rest: Seq<char>,
    word: Seq<char>,
    words: Seq<Seq<char>>,
)
    requires
        forall|i: int| 0 <= i < p.len() ==> #[trigger] is_plain_char(p[i]),
    ensures
        lex(p + rest, QuoteState::NoQuote, word, words) == lex(
            rest,
            QuoteState::NoQuote,
            word + p,
            words,
        ),
    decreases p.len(),
{
    if p.len() == 0 {
        assert(p + rest =~= rest);
        assert(word + p =~= word);
    } else {
        assert(is_plain_char(p[0]));
        assert((p + rest)[0] == p[0]);
        assert((p + rest).drop_first() =~= p.drop_first() + rest);
        lemma_lex_plain_run(p.drop_first(), rest, word.push(p[0]), words);
        assert(word.push(p[0]) + p.drop_first() =~= word + p);
    }
}

proof fn lemma_lex_single_quoted(
    q: Seq<char>,
    rest: Seq<char>,
    word: Seq<char>,
    words: Seq<Seq<char>>,
)
    requires
        forall|i: int| 0 <= i < q.len() ==> #[trigger] q[i] != '\'',
    ensures
        lex(q + seq!['\''] + rest, QuoteState::Single, word, words) == lex(
            rest,
            QuoteState::NoQuote,
            word + q,
            words,
        ),
    decreases q.len(),
{
    let s = q + seq!['\''] + rest;
    if q.len() == 0 {
        assert(s[0] == '\'');
        assert(s.drop_first() =~= rest);
        assert(word + q =~= word);
    } else {
        assert(s[0] == q[0]);
        assert(q[0] != '\'');
        assert(s.drop_first() =~= q.drop_first() + seq!['\''] + rest);
        lemma_lex_single_quoted(q.drop_first(), rest, word.push(q[0]), words);
        assert(word.push(q[0]) + q.drop_first() =~= word + q);
    }
}

proof fn lemma_lex_double_quoted(
    q: Seq<char>,
    rest: Seq<char>,
    word: Seq<char>,
    words: Seq<Seq<char>>,
)
    requires
        forall|i: int| 0 <= i < q.len() ==> #[trigger] q[i] != '"' && q[i] != '\\',
    ensures
        lex(q + seq!['"'] + rest, QuoteState::Double, word, words) == lex(
            rest,
            QuoteState::NoQuote,
            word + q,
            words,
        ),
    decreases q.len(),
{
    let s = q + seq!['"'] + rest;
    if q.len() == 0 {
        assert(s[0] == '"');
        assert(s.drop_first() =~= rest);
        assert(word + q =~= word);
    } else {
        assert(s[0] == q[0]);
        assert(q[0] != '"' && q[0] != '\\');
        assert(s.drop_first() =~= q.drop_first() + seq!['"'] + rest);
        lemma_lex_double_quoted(q.drop_first(), rest, word.push(q[0]), words);
        assert(word.push(q[0]) + q.drop_first() =~= word + q);
    }
}

proof fn lemma_trim_unchanged(s: Seq<char>)
    requires
        s.len() > 0,
        !crate::text::is_white_space(s[0]),
        !crate::text::is_white_space(s.last()),
    ensures
        crate::text::trim(s) == s,
{
    assert(crate::text::trim_start_by(s, crate::text::TrimSet::WhiteSpace) == s);
    assert(crate::text::trim_end_by(s, crate::text::TrimSet::WhiteSpace) == s);
}

/// A quoted text in single quotes is one word, taken literally, white space
/// and backslashes included.
pub proof fn law_single_quotes_are_literal(q: Seq<char>)
    requires
        q.len() > 0,
        forall|i: int| 0 <= i < q.len() ==> #[trigger] q[i] != '\'',
    ensures
        split_words(seq!['\''] + q + seq!['\'']) == seq![q],
{
    let s = seq!['\''] + q + seq!['\''];
    lemma_trim_unchanged(s);
    assert(s[0] == '\'');
    assert(s.drop_first() =~= q + seq!['\''] + Seq::<char>::empty());
    lemma_lex_single_quoted(q, Seq::<char>::empty(), seq![], seq![]);
    assert(Seq::<char>::empty() + q =~= q);
    assert(close_word(q, Seq::<Seq<char>>::empty()) =~= seq![q]);
}

/// A quoted text in double quotes that holds no backslash is one word, taken
/// literally, white space and single quotes included.
pub proof fn law_double_quotes_keep_text(q: Seq<char>)
    requires
        q.len() > 0,
        forall|i: int| 0 <= i < q.len() ==> #[trigger] q[i] != '"' && q[i] != '\\',
    ensures
        split_words(seq!['"'] + q + seq!['"']) == seq![q],
{
    let s = seq!['"'] + q + seq!['"'];
    lemma_trim_unchanged(s);
    assert(s[0] == '"');
    assert(s.drop_first() =~= q + seq!['"'] + Seq::<char>::empty());
    lemma_lex_double_quoted(q, Seq::<char>::empty(), seq![], seq![]);
    assert(Seq::<char>::empty() + q =~= q);
    assert(close_word(q, Seq::<Seq<char>>::empty()) =~= seq![q]);
}

proof fn lemma_lex_joined_words(ws: Seq<Seq<char>>, acc: Seq<Seq<char>>)
    requires
        ws.len() >= 1,
        forall|i: int| 0 <= i < ws.len() ==> #[trigger] is_plain_word(ws[i]),
    ensures
        lex(crate::text::join(ws, seq![' ']), QuoteState::NoQuote, seq![], acc) == acc + ws,
    decreases ws.len(),
{
    let w = ws[0];
    assert(is_plain_word(w));
    if ws.len() == 1 {
        lemma_lex_plain_run(w, Seq::<char>::empty(), seq![], acc);
        assert(w + Seq::<char>::empty() =~= w);
        assert(Seq::<char>::empty() + w =~= w);
        assert(acc.push(w) =~= acc + ws);
    } else {
        let tail = ws.drop_first();
        assert(ws =~= seq![w] + tail);
        crate::text::lemma_join_prepend(w, tail, seq![' ']);
        let j = crate::text::join(tail, seq![' ']);
        assert(w + seq![' '] + j =~= w + (seq![' '] + j));
        lemma_lex_plain_run(w, seq![' '] + j, seq![], acc);
        assert(Seq::<char>::empty() + w =~= w);
        let r = seq![' '] + j;
        assert(r[0] == ' ');
        assert(crate::text::is_white_space(' '));
        assert(r.drop_first() =~= j);
        assert forall|i: int| 0 <= i < tail.len() implies #[trigger] is_plain_word(tail[i]) by {
            assert(tail[i] == ws[i + 1]);
        }
        lemma_lex_joined_words(tail, acc.push(w));
        assert(acc.push(w) + tail =~= acc + ws);
    }
}

proof fn lemma_join_ends(ws: Seq<Seq<char>>)
    requires
        ws.len() >= 1,
        forall|i: int| 0 <= i < ws.len() ==> #[trigger] is_plain_word(ws[i]),
    ensures
        crate::text::join(ws, seq![' ']).len() > 0,
        crate::text::join(ws, seq![' '])[0] == ws[0][0],
        crate::text::join(ws, seq![' ']).last() == ws.last().last(),
{
    assert(is_plain_word(ws[0]));
    assert(is_plain_word(ws.last()));
    if ws.len() > 1 {
        let tail = ws.drop_first();
        assert(ws =~= seq![ws[0]] + tail);
        crate::text::lemma_join_prepend(ws[0], tail, seq![' ']);
    }
}

/// Words that hold only characters standing for themselves, joined with
/// single spaces, split back into the same words.
pub proof fn law_split_undoes_join(ws: Seq<Seq<char>>)
    requires
        ws.len() >= 1,
        forall|i: int| 0 <= i < ws.len() ==> #[trigger] is_plain_word(ws[i]),
    ensures
        split_words(crate::text::join(ws, seq![' '])) == ws,
{
    let j = crate::text::join(ws, seq![' ']);
    lemma_join_ends(ws);
    let first = ws[0];
    let last = ws[ws.len() - 1];
    assert(is_plain_word(first));
    assert(is_plain_word(last));
    assert(is_plain_char(first[0]));
    assert(is_plain_char(last[last.len() - 1]));
    lemma_trim_unchanged(j);
    lemma_lex_joined_words(ws, seq![]);
    assert(Seq::<Seq<char>>::empty() + ws =~= ws);
}

/// Whether no word of `words` is a redirection operator.
pub open spec fn no_operators(words: Seq<Seq<char>>) -> bool {
    forall|i: int| 0 <= i < words.len() ==> #[trigger] redirect_op(words[i]) is None
}

proof fn lemma_redirect_keeps_no_operators(
    words: Seq<Seq<char>>,
    kept: Seq<Seq<char>>,
    out: Redirection,
    err: Redirection,
)
    requires
        no_operators(kept),
    ensures
        no_operators(redirect(words, kept, out, err).0),
    decreases words.len(),
{
    if words.len() > 0 {
        match redirect_op(words[0]) {
            None => {
                let k2 = kept.push(words[0]);
                assert forall|i: int| 0 <= i < k2.len() implies #[trigger] redirect_op(k2[i]) is None by {
                    if i < kept.len() {
                        assert(k2[i] == kept[i]);
                    }
                }
                lemma_redirect_keeps_no_operators(words.drop_first(), k2, out, err);
            },
            Some(op) => {
                if words.len() >= 2 {
                    let path = words[1];
                    match op {
                        RedirectOp::Stdout => lemma_redirect_keeps_no_operators(
                            words.skip(2),
                            kept,
                            Redirection::File(path),
                            err,
                        ),
                        RedirectOp::StdoutAppend => lemma_redirect_keeps_no_operators(
                            words.skip(2),
                            kept,
                            Redirection::AppendToFile(path),
                            err,
                        ),
                        RedirectOp::Stderr => lemma_redirect_keeps_no_operators(
                            words.skip(2),
                            kept,
                            out,
                            Redirection::File(path),
                        ),
                        RedirectOp::StderrAppend => lemma_redirect_keeps_no_operators(
                            words.skip(2),
                            kept,
                            out,
                            Redirection::AppendToFile(path),
                        ),
                    }
                } else {
                    lemma_redirect_keeps_no_operators(words.drop_first(), kept, out, err);
                }
            },
        }
    }
}

/// The arguments left after the redirections are read hold no redirection
/// operator: each operator is taken away with the path after it.
pub proof fn law_arguments_hold_no_operator(words: Seq<Seq<char>>)
    ensures
        no_operators(redirections(words).0),
{
    lemma_redirect_keeps_no_operators(
        words,
        seq![],
        Redirection::Console,
        Redirection::Console,
    );
}

proof fn lemma_redirect_without_operators(
    words: Seq<Seq<char>>,
    kept: Seq<Seq<char>>,
    out: Redirection,
    err: Redirection,
)
    requires
        no_operators(words),
    ensures
        redirect(words, kept, out, err) == (kept + words, out, err),
    decreases words.len(),
{
    if words.len() == 0 {
        assert(kept + words =~= kept);
    } else {
        assert(redirect_op(words[0]) is None);
        let rest = words.drop_first();
        assert forall|i: int| 0 <= i < rest.len() implies #[trigger] redirect_op(rest[i]) is None by {
            assert(rest[i] == words[i + 1]);
        }
        lemma_redirect_without_operators(rest, kept.push(words[0]), out, err);
        assert(kept.push(words[0]) + rest =~= kept + words);
    }
}

/// Where no word is a redirection operator, all words are arguments and both
/// streams go to the terminal.
pub proof fn law_no_operator_no_redirection(words: Seq<Seq<char>>)
    requires
        no_operators(words),
    ensures
        redirections(words) == (words, Redirection::Console, Redirection::Console),
{
    lemma_redirect_without_operators(
        words,
        seq![],
        Redirection::Console,
        Redirection::Console,
    );
    assert(Seq::<Seq<char>>::empty() + words =~= words);
}

proof fn lemma_redirect_plain_prefix(
    a: Seq<Seq<char>>,
    b: Seq<Seq<char>>,
    kept: Seq<Seq<char>>,
    out: Redirection,
    err: Redirection,
)
    requires
        no_operators(a),
    ensures
        redirect(a + b, kept, out, err) == redirect(b, kept + a, out, err),
    decreases a.len(),
{
    if a.len() == 0 {
        assert(a + b =~= b);
        assert(kept + a =~= kept);
    } else {
        assert((a + b)[0] == a[0]);
        assert(redirect_op(a[0]) is None);
        assert((a + b).drop_first() =~= a.drop_first() + b);
        let rest = a.drop_first();
        assert forall|i: int| 0 <= i < rest.len() implies #[trigger] redirect_op(rest[i]) is None by {
            assert(rest[i] == a[i + 1]);
        }
        lemma_redirect_plain_prefix(rest, b, kept.push(a[0]), out, err);
        assert(kept.push(a[0]) + rest =~= kept + a);
    }
}

/// Where standard output and error go after one redirection `op` to `path`
/// on a line that has no other.
pub open spec fn single_redirection(op: RedirectOp, path: Seq<char>) -> (Redirection, Redirection) {
    match op {
        RedirectOp::Stdout => (Redirection::File(path), Redirection::Console),
        RedirectOp::StdoutAppend => (Redirection::AppendToFile(path), Redirection::Console),
        RedirectOp::Stderr => (Redirection::Console, Redirection::File(path)),
        RedirectOp::StderrAppend => (Redirection::Console, Redirection::AppendToFile(path)),
    }
}

/// A redirection at the end of the arguments sends its stream to the word
/// after the operator, whatever that word is, and leaves the arguments
/// before it as they are.
pub proof fn law_redirection_at_end(words: Seq<Seq<char>>, op_word: Seq<char>, path: Seq<char>)
    requires
        no_operators(words),
        redirect_op(op_word) is Some,
    ensures
        ({
            let (out, err) = single_redirection(redirect_op(op_word).unwrap(), path);
            redirections(words + seq![op_word, path]) == (words, out, err)
        }),
{
    let tail = seq![op_word, path];
    lemma_redirect_plain_prefix(words, tail, seq![], Redirection::Console, Redirection::Console);
    assert(Seq::<Seq<char>>::empty() + words =~= words);
    assert(tail[0] == op_word);
    assert(tail[1] == path);
    assert(tail.skip(2) =~= Seq::<Seq<char>>::empty());
    let (out, err) = single_redirection(redirect_op(op_word).unwrap(), path);
    let e = Seq::<Seq<char>>::empty();
    assert(redirect(e, words, out, err) == (words, out, err));
    assert(redirect(tail, words, Redirection::Console, Redirection::Console) == redirect(
        e,
        words,
        out,
        err,
    ));
}

/// The words of `rest` split at white space only, having collected `word`
/// for the word in progress and `words` before it: each maximal run of
/// characters that are no white space is a word, as `str::split_whitespace`
/// gives them.
pub open spec fn whitespace_runs(
    rest: Seq<char>,
    word: Seq<char>,
    words: Seq<Seq<char>>,
) -> Seq<Seq<char>>
    decreases rest.len(),
{
    if rest.len() == 0 {
        close_word(word, words)
    } else if crate::text::is_white_space(rest[0]) {
        whitespace_runs(rest.drop_first(), seq![], close_word(word, words))
    } else {
        whitespace_runs(rest.drop_first(), word.push(rest[0]), words)
    }
}

/// The maximal runs of characters of `s` that are no white space.
pub open spec fn split_whitespace(s: Seq<char>) -> Seq<Seq<char>> {
    whitespace_runs(s, seq![], seq![])
}

/// Whether `s` holds no quote and no backslash.
pub open spec fn has_no_quoting(s: Seq<char>) -> bool {
    forall|i: int| 0 <= i < s.len() ==> #[trigger] s[i] != '\'' && s[i] != '"' && s[i] != '\\'
}

proof fn lemma_lex_without_quoting(rest: Seq<char>, word: Seq<char>, words: Seq<Seq<char>>)
    requires
        has_no_quoting(rest),
    ensures
        lex(rest, QuoteState::NoQuote, word, words) == whitespace_runs(rest, word, words),
    decreases rest.len(),
{
    if rest.len() > 0 {
        let next = rest.drop_first();
        assert(rest[0] != '\'' && rest[0] != '"' && rest[0] != '\\');
        assert forall|i: int| 0 <= i < next.len() implies #[trigger] next[i] != '\'' && next[i]
            != '"' && next[i] != '\\' by {
            assert(next[i] == rest[i + 1]);
        }
        if crate::text::is_white_space(rest[0]) {
            lemma_lex_without_quoting(next, seq![], close_word(word, words));
        } else {
            lemma_lex_without_quoting(next, word.push(rest[0]), words);
        }
    }
}

proof fn lemma_runs_trailing_space(a: Seq<char>, c: char, word: Seq<char>, words: Seq<Seq<char>>)
    requires
        crate::text::is_white_space(c),
    ensures
        whitespace_runs(a.push(c), word, words) == whitespace_runs(a, word, words),
    decreases a.len(),
{
    let s = a.push(c);
    if a.len() == 0 {
        assert(s[0] == c);
        assert(s.drop_first() =~= Seq::<char>::empty());
        let e = Seq::<char>::empty();
        assert(close_word(e, close_word(word, words)) == close_word(word, words));
        assert(whitespace_runs(e, e, close_word(word, words)) == close_word(word, words));
        assert(whitespace_runs(s, word, words) == whitespace_runs(e, e, close_word(word, words)));
        assert(a =~= e);
        assert(whitespace_runs(a, word, words) == close_word(word, words));
    } else {
        assert(s[0] == a[0]);
        assert(s.drop_first() =~= a.drop_first().push(c));
        if crate::text::is_white_space(a[0]) {
            lemma_runs_trailing_space(a.drop_first(), c, seq![], close_word(word, words));
        } else {
            lemma_runs_trailing_space(a.drop_first(), c, word.push(a[0]), words);
        }
    }
}

proof fn lemma_runs_trim_end(u: Seq<char>, word: Seq<char>, words: Seq<Seq<char>>)
    ensures
        whitespace_runs(crate::text::trim_end_by(u, crate::text::TrimSet::WhiteSpace), word, words)
            == whitespace_runs(u, word, words),
    decreases u.len(),
{
    if u.len() > 0 && crate::text::is_white_space(u.last()) {
        lemma_runs_trim_end(u.drop_last(), word, words);
        assert(u.drop_last().push(u.last()) =~= u);
        lemma_runs_trailing_space(u.drop_last(), u.last(), word, words);
    }
}

proof fn lemma_runs_trim_start(s: Seq<char>, words: Seq<Seq<char>>)
    ensures
        whitespace_runs(crate::text::trim_start_by(s, crate::text::TrimSet::WhiteSpace), seq![], words)
            == whitespace_runs(s, seq![], words),
    decreases s.len(),
{
    if s.len() > 0 && crate::text::is_white_space(s[0]) {
        lemma_runs_trim_start(s.drop_first(), words);
        assert(close_word(Seq::<char>::empty(), words) == words);
    }
}

/// On a line with no quote and no backslash, the words are the maximal runs
/// of characters that are no white space, as `str::split_whitespace` gives
/// them.
pub proof fn law_plain_line_splits_at_white_space(line: Seq<char>)
    requires
        has_no_quoting(line),
    ensures
        split_words(line) == split_whitespace(line),
{
    let ws = crate::text::TrimSet::WhiteSpace;
    let u = crate::text::trim_start_by(line, ws);
    let t = crate::text::trim_end_by(u, ws);
    crate::text::lemma_trim_start_shape(line, ws);
    crate::text::lemma_trim_end_shape(u, ws);
    assert forall|i: int| 0 <= i < t.len() implies #[trigger] t[i] != '\'' && t[i] != '"' && t[i]
        != '\\' by {
        assert(t[i] == u[i]);
        assert(u[i] == line[i + (line.len() - u.len())]);
    }
    lemma_lex_without_quoting(t, seq![], seq![]);
    lemma_runs_trim_end(u, seq![], seq![]);
    lemma_runs_trim_start(line, seq![]);
}

/// A line with no quote and no backslash, whose words after the first are
/// no redirection operators, reads as the command named by its first word
/// with the other words as arguments and both streams on the terminal; a
/// line without a word holds no command.
pub proof fn law_plain_line_command(line: Seq<char>)
    requires
        has_no_quoting(line),
        no_operators(split_whitespace(line).drop_first()),
    ensures
        ({
            let w = split_whitespace(line);
            parse_command(line) == if w.len() == 0 {
                None
            } else {
                Some(
                    CommandModel {
                        head: Some(w[0]),
                        tail: w.drop_first(),
                        output_location: Redirection::Console,
                        error_location: Redirection::Console,
                    },
                )
            }
        }),
{
    law_plain_line_splits_at_white_space(line);
    let w = split_whitespace(line);
    if w.len() > 0 {
        law_no_operator_no_redirection(w.drop_first());
    }
}

/// Outside quotes a backslash is never part of a word: it makes the
/// character after it, whatever it is, part of the word, and goes away. So
/// `a\xb` is the one word `axb`, for words `a`, `b` of characters that stand
/// for themselves (a white space `x` at the very end of the line is trimmed
/// first, so there `b` must be non-empty).
pub proof fn law_backslash_takes_next_char_literally(a: Seq<char>, x: char, b: Seq<char>)
    requires
        forall|i: int| 0 <= i < a.len() ==> #[trigger] is_plain_char(a[i]),
        forall|i: int| 0 <= i < b.len() ==> #[trigger] is_plain_char(b[i]),
        b.len() > 0 || !crate::text::is_white_space(x),
    ensures
        split_words(a + seq!['\\', x] + b) == seq![a.push(x) + b],
{
    let e = Seq::<char>::empty();
    let r = seq!['\\', x] + b;
    let s = a + seq!['\\', x] + b;
    assert(s =~= a + r);
    assert(!crate::text::is_white_space('\\'));
    if a.len() > 0 {
        assert(is_plain_char(a[0]));
        assert(s[0] == a[0]);
    } else {
        assert(s[0] == '\\');
    }
    if b.len() > 0 {
        assert(is_plain_char(b[b.len() - 1]));
        assert(s.last() == b[b.len() - 1]);
    } else {
        assert(s.last() == x);
    }
    lemma_trim_unchanged(s);
    lemma_lex_plain_run(a, r, e, seq![]);
    assert(e + a =~= a);
    assert(r[0] == '\\');
    assert(r[1] == x);
    assert(r.skip(2) =~= b);
    assert(lex(r, QuoteState::NoQuote, a, seq![]) == lex(b, QuoteState::NoQuote, a.push(x), seq![]));
    lemma_lex_plain_run(b, e, a.push(x), seq![]);
    assert(b + e =~= b);
    let w = a.push(x) + b;
    assert(w.len() > 0);
    assert(close_word(w, Seq::<Seq<char>>::empty()) =~= seq![w]);
}

/// Whether `op` redirects standard output (else it redirects standard
/// error).
pub open spec fn redirects_stdout(op: RedirectOp) -> bool {
    op == RedirectOp::Stdout || op == RedirectOp::StdoutAppend
}

/// Where the stream of `op` goes: the file `path`, truncated first for `>`,
/// `1>` and `2>`, written at its end for `>>` and `2>>`.
pub open spec fn destination(op: RedirectOp, path: Seq<char>) -> Redirection {
    if op == RedirectOp::StdoutAppend || op == RedirectOp::StderrAppend {
        Redirection::AppendToFile(path)
    } else {
        Redirection::File(path)
    }
}

proof fn lemma_redirect_pair(
    op_word: Seq<char>,
    path: Seq<char>,
    rest: Seq<Seq<char>>,
    kept: Seq<Seq<char>>,
    out: Redirection,
    err: Redirection,
)
    requires
        redirect_op(op_word) is Some,
    ensures
        ({
            let op = redirect_op(op_word).unwrap();
            redirect(seq![op_word, path] + rest, kept, out, err) == if redirects_stdout(op) {
                redirect(rest, kept, destination(op, path), err)
            } else {
                redirect(rest, kept, out, destination(op, path))
            }
        }),
{
    let w = seq![op_word, path] + rest;
    assert(w[0] == op_word);
    assert(w[1] == path);
    assert(w.skip(2) =~= rest);
}

/// With two redirections among words that are no operators, each stream
/// goes where the later redirection of that stream sends it, and to the
/// terminal where none does; a redirection of one stream leaves the other
/// alone. The words other than the two operators and their paths stay, in
/// order.
pub proof fn law_two_redirections(
    ws: Seq<Seq<char>>,
    op1: Seq<char>,
    p1: Seq<char>,
    vs: Seq<Seq<char>>,
    op2: Seq<char>,
    p2: Seq<char>,
    us: Seq<Seq<char>>,
)
    requires
        no_operators(ws),
        no_operators(vs),
        no_operators(us),
        redirect_op(op1) is Some,
        redirect_op(op2) is Some,
    ensures
        ({
            let o1 = redirect_op(op1).unwrap();
            let o2 = redirect_op(op2).unwrap();
            let out = if redirects_stdout(o2) {
                destination(o2, p2)
            } else if redirects_stdout(o1) {
                destination(o1, p1)
            } else {
                Redirection::Console
            };
            let err = if !redirects_stdout(o2) {
                destination(o2, p2)
            } else if !redirects_stdout(o1) {
                destination(o1, p1)
            } else {
                Redirection::Console
            };
            redirections(ws + seq![op1, p1] + vs + seq![op2, p2] + us) == (ws + vs + us, out, err)
        }),
{
    let o1 = redirect_op(op1).unwrap();
    let o2 = redirect_op(op2).unwrap();
    let c = Redirection::Console;
    let tail2 = seq![op2, p2] + us;
    let x = vs + tail2;
    let tail1 = seq![op1, p1] + x;
    assert(ws + seq![op1, p1] + vs + seq![op2, p2] + us =~= ws + tail1);
    let e = Seq::<Seq<char>>::empty();
    lemma_redirect_plain_prefix(ws, tail1, e, c, c);
    assert(e + ws =~= ws);
    lemma_redirect_pair(op1, p1, x, ws, c, c);
    let (out1, err1) = if redirects_stdout(o1) {
        (destination(o1, p1), c)
    } else {
        (c, destination(o1, p1))
    };
    lemma_redirect_plain_prefix(vs, tail2, ws, out1, err1);
    lemma_redirect_pair(op2, p2, us, ws + vs, out1, err1);
    let (out2, err2) = if redirects_stdout(o2) {
        (destination(o2, p2), err1)
    } else {
        (out1, destination(o2, p2))
    };
    lemma_redirect_without_operators(us, ws + vs, out2, err2);
    assert(ws + vs + us =~= (ws + vs) + us);
}

} // verus!
