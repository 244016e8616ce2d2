//! What a command does: the choice between the builtins and outside
//! programs, the exit status of `exit`, the texts the shell prints, and the
//! helpers on quoted arguments.

use vstd::prelude::*;
use vstd::string::StringExecFns;
use crate::input::{MyCommand, OutputLocation};
use crate::text::{TrimSet, chars_of, join_strings, skip_trailing, string_of, text_is, trimmed_bounds};

verus! {

/// The names of the shell's builtin commands.
pub open spec fn builtin_names() -> Seq<Seq<char>> {
    seq!["exit"@, "echo"@, "type"@, "pwd"@, "cd"@]
}

/// Whether `name` names a builtin command.
pub fn is_builtin(name: &str) -> (r: bool)
    ensures
        r == builtin_names().contains(name@),
{
    let r = text_is(name, "exit") || text_is(name, "echo") || text_is(name, "type") || text_is(
        name,
        "pwd",
    ) || text_is(name, "cd");
    assert(builtin_names()[0] == "exit"@);
    assert(builtin_names()[1] == "echo"@);
    assert(builtin_names()[2] == "type"@);
    assert(builtin_names()[3] == "pwd"@);
    assert(builtin_names()[4] == "cd"@);
    r
}

/// Whether `s` is surrounded by a pair of the same quotes: its first and
/// last characters are both `'` or both `"` (a lone quote counts).
pub open spec fn surrounded_by_quotes(s: Seq<char>) -> bool {
    s.len() > 0 && ((s[0] == '\'' && s.last() == '\'') || (s[0] == '"' && s.last() == '"'))
}

/// Whether `argument` starts and ends with the same kind of quote.
pub fn is_surrounded_by_quotes(argument: &str) -> (r: bool)
    ensures
        r == surrounded_by_quotes(argument@),
{
    let v = chars_of(argument);
    let n = v.len();
    if n == 0 {
        return false;
    }
    (v[0] == '\'' && v[n - 1] == '\'') || (v[0] == '"' && v[n - 1] == '"')
}

/// `argument` without all the single and double quotes at its start and end.
pub fn remove_surrounding_quotes(argument: &str) -> (r: String)
    ensures
        r@ == crate::text::trim_by(argument@, TrimSet::Quotes),
{
    let v = chars_of(argument);
    let (lo, hi) = trimmed_bounds(v.as_slice(), TrimSet::Quotes);
    string_of(v.as_slice(), lo, hi)
}

/// Whether `c` is an ASCII decimal digit.
pub open spec fn is_digit(c: char) -> bool {
    '0' <= c <= '9'
}

/// The value of a string of decimal digits.
pub open spec fn digits_value(d: Seq<char>) -> int
    decreases d.len(),
{
    if d.len() == 0 {
        0
    } else {
        digits_value(d.drop_last()) * 10 + (d.last() as int - '0' as int)
    }
}

/// `s` without its sign, if it starts with one.
pub open spec fn unsigned_part(s: Seq<char>) -> Seq<char> {
    if s.len() > 0 && (s[0] == '-' || s[0] == '+') {
        s.drop_first()
    } else {
        s
    }
}

/// Whether every character of `d` is a decimal digit.
pub open spec fn all_digits(d: Seq<char>) -> bool {
    forall|i: int| 0 <= i < d.len() ==> #[trigger] is_digit(d[i])
}

/// The `i32` that `s` spells in decimal, as `str::parse::<i32>` reads it: an
/// optional `+` or `-`, then at least one digit and nothing else, with a
/// value in the range of `i32`.
pub open spec fn parse_i32(s: Seq<char>) -> Option<i32> {
    let negative = s.len() > 0 && s[0] == '-';
    let digits = unsigned_part(s);
    if digits.len() == 0 || !all_digits(digits) {
        None
    } else {
        let v = if negative {
            -digits_value(digits)
        } else {
            digits_value(digits)
        };
        if i32::MIN <= v <= i32::MAX {
            Some(v as i32)
        } else {
            None
        }
    }
}

proof fn lemma_digits_value_grows(d: Seq<char>, k: int)
    requires
        0 <= k <= d.len(),
        forall|i: int| 0 <= i < d.len() ==> #[trigger] is_digit(d[i]),
    ensures
        0 <= digits_value(d.take(k)) <= digits_value(d),
    decreases d.len() - k,
{
    if k < d.len() {
        lemma_digits_value_grows(d, k + 1);
        assert(d.take(k + 1).drop_last() =~= d.take(k));
        assert(is_digit(d[k]));
    } else {
        assert(d.take(k) =~= d);
        lemma_digits_value_nonneg(d);
    }
}

proof fn lemma_digits_value_nonneg(d: Seq<char>)
    requires
        forall|i: int| 0 <= i < d.len() ==> #[trigger] is_digit(d[i]),
    ensures
        digits_value(d) >= 0,
    decreases d.len(),
{
    if d.len() > 0 {
        assert(is_digit(d[d.len() - 1]));
        lemma_digits_value_nonneg(d.drop_last());
    }
}

/// Reads an exit status: the `i32` that `s` spells, if it spells one.
pub fn parse_exit_code(s: &str) -> (r: Option<i32>)
    ensures
        r == parse_i32(s@),
{
    let v = chars_of(s);
    let n = v.len();
    let negative = n > 0 && v[0] == '-';
    let start: usize = if n > 0 && (v[0] == '-' || v[0] == '+') {
        1
    } else {
        0
    };
    let ghost digits = v@.subrange(start as int, n as int);
    assert(digits =~= unsigned_part(v@));
    if start == n {
        return None;
    }
    let mut acc: i64 = 0;
    let mut i = start;
    while i < n
        invariant
            start <= i <= n == v@.len(),
            v@ == s@,
            start < n,
            negative == (v@.len() > 0 && v@[0] == '-'),
            digits == v@.subrange(start as int, n as int),
            digits == unsigned_part(v@),
            forall|j: int| 0 <= j < i - start ==> #[trigger] is_digit(digits[j]),
            acc == digits_value(digits.take(i - start)),
            0 <= acc <= 2147483648,
        decreases n - i,
    {
        let c = v[i];
        assert(c == digits[i - start]);
        if !('0' <= c && c <= '9') {
            assert(!is_digit(digits[i - start]));
            return None;
        }
        let d = (c as u32) - ('0' as u32);
        let ghost k = i - start;
        assert(digits.take(k + 1).drop_last() =~= digits.take(k));
        assert(digits.take(k + 1).last() == c);
        let next = acc * 10 + (d as i64);
        assert(next == digits_value(digits.take(k + 1)));
        if next > 2147483648 {
            proof {
                if all_digits(digits) {
                    lemma_digits_value_grows(digits, i - start + 1);
                }
            }
            return None;
        }
        acc = next;
        i += 1;
    }
    assert(digits.take(n - start) =~= digits);
    if negative {
        Some((-acc) as i32)
    } else if acc <= 2147483647 {
        Some(acc as i32)
    } else {
        None
    }
}

/// What a command does, as plain texts.
pub enum ActionModel {
    /// Leave the shell with this status; none where it is missing or no `i32`.
    Exit(Option<i32>),
    /// Print this text.
    Echo(Seq<char>),
    /// Tell what each of these names is.
    Type(Seq<Seq<char>>),
    /// Print the working directory.
    PrintWorkingDirectory,
    /// Change the working directory to this one; none where it is missing.
    ChangeDirectory(Option<Seq<char>>),
    /// Run `cat` on these arguments and print what it writes.
    Cat(Seq<Seq<char>>),
    /// Run the program of this name with these arguments, if there is one.
    Run(Seq<char>, Seq<Seq<char>>),
}

/// What a command does.
pub enum ShellAction {
    /// Leave the shell with this status; none where the status is missing or
    /// is no `i32` (the shell cannot go on then).
    Exit(Option<i32>),
    /// Print this text.
    Echo(String),
    /// Tell what each of these names is.
    Type(Vec<String>),
    /// Print the working directory.
    PrintWorkingDirectory,
    /// Change the working directory to this one; none where the command names
    /// no directory (the shell cannot go on then).
    ChangeDirectory(Option<String>),
    /// Run `cat` on these arguments and print what it writes to both streams.
    Cat(Vec<String>),
    /// Run the program of this name with these arguments, if the search path
    /// holds one.
    Run(String, Vec<String>),
}

impl View for ShellAction {
    type V = ActionModel;

    open spec fn view(&self) -> ActionModel {
        match self {
            ShellAction::Exit(c) => ActionModel::Exit(*c),
            ShellAction::Echo(t) => ActionModel::Echo(t@),
            ShellAction::Type(v) => ActionModel::Type(crate::text::texts(v@)),
            ShellAction::PrintWorkingDirectory => ActionModel::PrintWorkingDirectory,
            ShellAction::ChangeDirectory(d) => ActionModel::ChangeDirectory(
                crate::input::opt_text(*d),
            ),
            ShellAction::Cat(v) => ActionModel::Cat(crate::text::texts(v@)),
            ShellAction::Run(h, v) => ActionModel::Run(h@, crate::text::texts(v@)),
        }
    }
}

/// What the command named `head` with the arguments `tail` does.
pub open spec fn action_of(head: Seq<char>, tail: Seq<Seq<char>>) -> ActionModel {
    if head == "exit"@ {
        ActionModel::Exit(
            if tail.len() > 0 {
                parse_i32(tail[0])
            } else {
                None
            },
        )
    } else if head == "echo"@ {
        ActionModel::Echo(crate::text::join(tail, " "@))
    } else if head == "type"@ {
        ActionModel::Type(tail)
    } else if head == "pwd"@ {
        ActionModel::PrintWorkingDirectory
    } else if head == "cd"@ {
        ActionModel::ChangeDirectory(
            if tail.len() > 0 {
                Some(tail[0])
            } else {
                None
            },
        )
    } else if head == "cat"@ {
        ActionModel::Cat(tail)
    } else {
        ActionModel::Run(head, tail)
    }
}

/// A copy of the strings of `v`.
fn copy_strings(v: &Vec<String>) -> (r: Vec<String>)
    ensures
        crate::text::texts(r@) == crate::text::texts(v@),
{
    let mut r: Vec<String> = Vec::new();
    let mut i: usize = 0;
    while i < v.len()
        invariant
            i <= v@.len(),
            r@.len() == i,
            forall|j: int| 0 <= j < i ==> #[trigger] r@[j]@ == v@[j]@,
        decreases v@.len() - i,
    {
        r.push(v[i].clone());
        i += 1;
    }
    assert(crate::text::texts(r@) =~= crate::text::texts(v@));
    r
}

/// The text that `Debug` formatting gives for a list of strings.
pub uninterp spec fn debug_listing(args: Seq<Seq<char>>) -> Seq<char>;

/// Formats `args` with `Debug`, as `format!("{:?}", args)` does on a
/// `Vec<String>`. The contract claims only that the text depends on the
/// texts of the strings alone; the escaping rules are not stated.
#[verifier::external_body]
fn format_debug_list(args: &Vec<String>) -> (r: String)
    ensures
        r@ == debug_listing(crate::text::texts(args@)),
{
    format!("{:?}", args)
}

/// The line that `cat` prints before it runs when it is given more than one
/// argument: the arguments in `Debug` form; none otherwise.
pub fn cat_argument_listing(args: &Vec<String>) -> (r: Option<String>)
    ensures
        args@.len() > 1 ==> (r matches Some(t) && t@ == debug_listing(crate::text::texts(args@))),
        args@.len() <= 1 ==> r is None,
{
    if args.len() > 1 {
        Some(format_debug_list(args))
    } else {
        None
    }
}

/// Decides what `command` does, from its name and arguments.
pub fn plan(command: &MyCommand) -> (r: ShellAction)
    requires
        command.head is Some,
    ensures
        r@ == action_of(command@.head.unwrap(), command@.tail),
{
    let head = command.head.as_ref().unwrap();
    let tail = &command.tail;
    let ghost t = crate::text::texts(tail@);
    if text_is(head.as_str(), "exit") {
        if tail.len() > 0 {
            assert(t[0] == tail@[0]@);
            ShellAction::Exit(parse_exit_code(tail[0].as_str()))
        } else {
            ShellAction::Exit(None)
        }
    } else if text_is(head.as_str(), "echo") {
        ShellAction::Echo(join_strings(tail, " "))
    } else if text_is(head.as_str(), "type") {
        ShellAction::Type(copy_strings(tail))
    } else if text_is(head.as_str(), "pwd") {
        ShellAction::PrintWorkingDirectory
    } else if text_is(head.as_str(), "cd") {
        if tail.len() > 0 {
            assert(t[0] == tail@[0]@);
            ShellAction::ChangeDirectory(Some(tail[0].clone()))
        } else {
            ShellAction::ChangeDirectory(None)
        }
    } else if text_is(head.as_str(), "cat") {
        ShellAction::Cat(copy_strings(tail))
    } else {
        ShellAction::Run(head.clone(), copy_strings(tail))
    }
}

/// What `type` says of `name`: that it is a builtin; else where the search
/// path holds a program of that name (`found`); else that the command's
/// arguments, joined with spaces, are not found.
pub open spec fn type_report(name: Seq<char>, tail: Seq<Seq<char>>, found: Option<Seq<char>>) -> Seq<char> {
    if builtin_names().contains(name) {
        name + " is a shell builtin"@
    } else if found is Some {
        name + " is "@ + found.unwrap()
    } else {
        crate::text::join(tail, " "@) + " not found"@
    }
}

/// The line that `type` prints for `name`, one of the arguments `tail`, given
/// where the search path holds a program of that name, if it holds one.
pub fn describe_type(name: &str, tail: &Vec<String>, found: Option<String>) -> (r: String)
    ensures
        r@ == type_report(name@, crate::text::texts(tail@), crate::input::opt_text(found)),
{
    if is_builtin(name) {
        String::from_str(name).concat(" is a shell builtin")
    } else {
        match found {
            Some(path) => String::from_str(name).concat(" is ").concat(path.as_str()),
            None => join_strings(tail, " ").concat(" not found"),
        }
    }
}

/// What the shell prints for a command that is neither a builtin nor a
/// program on the search path.
pub fn command_not_found(head: &str) -> (r: String)
    ensures
        r@ == head@ + ": command not found"@,
{
    String::from_str(head).concat(": command not found")
}

/// What `cd` prints when it cannot change to `dir`.
pub fn cd_failure_message(dir: &str) -> (r: String)
    ensures
        r@ == "cd: "@ + dir@ + ": No such file or directory"@,
{
    String::from_str("cd: ").concat(dir).concat(": No such file or directory")
}

/// Whether `cd` reads `dir` as the home directory.
pub fn names_home_directory(dir: &str) -> (r: bool)
    ensures
        r == (dir@ == "~"@),
{
    text_is(dir, "~")
}

/// The text written for `output`: on the terminal without its trailing white
/// space, in a file as it is; then a line break.
pub open spec fn rendered(output: Seq<char>, location: crate::input::Redirection) -> Seq<char> {
    match location {
        crate::input::Redirection::Console => crate::text::trim_end(output) + seq!['\n'],
        _ => output + seq!['\n'],
    }
}

/// The text that goes to `output_location` when a command prints `output`.
pub fn rendered_output(output: &str, output_location: &OutputLocation) -> (r: String)
    ensures
        r@ == rendered(output@, output_location@),
{
    let v = chars_of(output);
    let hi = match output_location {
        OutputLocation::Console => skip_trailing(v.as_slice(), 0, v.len(), TrimSet::WhiteSpace),
        _ => v.len(),
    };
    assert(v@.subrange(0, v@.len() as int) =~= v@);
    let mut r = string_of(v.as_slice(), 0, hi);
    crate::text::push_char(&mut r, '\n');
    r
}

/// A text between two quotes of the same kind is surrounded by quotes.
pub proof fn law_quoted_text_is_surrounded(q: char, w: Seq<char>)
    requires
        q == '\'' || q == '"',
    ensures
        surrounded_by_quotes(seq![q] + w + seq![q]),
{
    let s = seq![q] + w + seq![q];
    assert(s[0] == q);
    assert(s.last() == q);
}

/// Removing the quotes around a word that neither starts nor ends with a
/// quote gives the word back.
pub proof fn law_unquoting_gives_the_word(q: char, w: Seq<char>)
    requires
        q == '\'' || q == '"',
        w.len() > 0,
        !crate::text::in_trim_set(TrimSet::Quotes, w[0]),
        !crate::text::in_trim_set(TrimSet::Quotes, w.last()),
    ensures
        crate::text::trim_by(seq![q] + w + seq![q], TrimSet::Quotes) == w,
{
    let s = seq![q] + w + seq![q];
    let u = s.drop_first();
    assert(u =~= w + seq![q]);
    assert(u[0] == w[0]);
    assert(crate::text::trim_start_by(u, TrimSet::Quotes) == u);
    assert(crate::text::trim_start_by(s, TrimSet::Quotes) == u);
    assert(u.drop_last() =~= w);
    assert(crate::text::trim_end_by(w, TrimSet::Quotes) == w);
    assert(crate::text::trim_end_by(u, TrimSet::Quotes) == w);
}

/// Removing the quotes a second time changes nothing.
pub proof fn law_unquoting_is_idempotent(s: Seq<char>)
    ensures
        crate::text::trim_by(crate::text::trim_by(s, TrimSet::Quotes), TrimSet::Quotes)
            == crate::text::trim_by(s, TrimSet::Quotes),
{
    crate::text::law_trim_is_idempotent(s, TrimSet::Quotes);
}

/// `type` calls each of `exit`, `echo`, `type`, `pwd` and `cd` a shell
/// builtin, whatever the other arguments are and whatever the search path
/// holds; any other name is reported with its path when the search path
/// holds it, and else as not found, with the arguments joined by spaces.
pub proof fn law_type_report(name: Seq<char>, tail: Seq<Seq<char>>, found: Option<Seq<char>>)
    ensures
        (name == "exit"@ || name == "echo"@ || name == "type"@ || name == "pwd"@ || name == "cd"@)
            ==> type_report(name, tail, found) == name + " is a shell builtin"@,
        !(name == "exit"@ || name == "echo"@ || name == "type"@ || name == "pwd"@ || name == "cd"@)
            ==> type_report(name, tail, found) == match found {
            Some(path) => name + " is "@ + path,
            None => crate::text::join(tail, " "@) + " not found"@,
        },
{
    let b = builtin_names();
    assert(b[0] == "exit"@);
    assert(b[1] == "echo"@);
    assert(b[2] == "type"@);
    assert(b[3] == "pwd"@);
    assert(b[4] == "cd"@);
    if b.contains(name) {
        let i = choose|i: int| 0 <= i < b.len() && b[i] == name;
        assert(b[i] == name);
    }
}

/// On the terminal a command's output loses only its trailing white space:
/// what is written is the output cut after its last character that is no
/// white space (nothing is cut at the start), then a line break. In a file
/// the output is written whole, then a line break.
pub proof fn law_rendered_output(output: Seq<char>)
    ensures
        exists|k: int|
            #![trigger output.take(k)]
            0 <= k <= output.len() && (k == 0 || !crate::text::is_white_space(output[k - 1])) && (
            forall|i: int| k <= i < output.len() ==> #[trigger] crate::text::is_white_space(output[i]))
                && rendered(output, crate::input::Redirection::Console) == output.take(k) + seq!['\n'],
        forall|p: Seq<char>|
            #[trigger] rendered(output, crate::input::Redirection::File(p)) == output + seq!['\n'],
        forall|p: Seq<char>|
            #[trigger] rendered(output, crate::input::Redirection::AppendToFile(p)) == output + seq!['\n'],
{
    let t = crate::text::trim_end(output);
    crate::text::lemma_trim_end_shape(output, TrimSet::WhiteSpace);
    crate::text::lemma_trim_end_removes_only_members(output, TrimSet::WhiteSpace);
    let k = t.len() as int;
    if k > 0 {
        assert(t.last() == output[k - 1]);
    }
    assert(output.take(k) == t);
    assert forall|i: int| k <= i < output.len() implies #[trigger] crate::text::is_white_space(
        output[i],
    ) by {
        assert(crate::text::in_trim_set(TrimSet::WhiteSpace, output[i]));
    }
    assert(rendered(output, crate::input::Redirection::Console) == output.take(k) + seq!['\n']);
    assert(0 <= k <= output.len() && (k == 0 || !crate::text::is_white_space(output[k - 1])));
}

/// Output that ends in a character that is no white space reaches the
/// terminal as it is, leading white space included, then a line break.
pub proof fn law_console_keeps_output_without_trailing_space(output: Seq<char>)
    requires
        output.len() > 0,
        !crate::text::is_white_space(output.last()),
    ensures
        rendered(output, crate::input::Redirection::Console) == output + seq!['\n'],
{
    assert(crate::text::trim_end(output) == output);
}

} // verus!
