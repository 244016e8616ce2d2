use tinyshell::input::{
    classify_word, parse_input, set_output_locations, split_command_line, MyCommand,
    OutputLocation, RedirectOp,
};

fn words(line: &str) -> Vec<String> {
    split_command_line(line)
}

fn strings(v: &[&str]) -> Vec<String> {
    v.iter().map(|s| s.to_string()).collect()
}

#[test]
fn plain_words_split_on_white_space() {
    assert_eq!(words("echo hello   world"), strings(&["echo", "hello", "world"]));
    assert_eq!(words("  echo\thello \n"), strings(&["echo", "hello"]));
    assert_eq!(words("a\u{3000}b"), strings(&["a", "b"]));
}

#[test]
fn single_quotes_keep_everything() {
    assert_eq!(words("echo 'hello    world'"), strings(&["echo", "hello    world"]));
    assert_eq!(words("echo 'a\\nb' \"x\""), strings(&["echo", "a\\nb", "x"]));
    assert_eq!(words("echo 'ab''cd'"), strings(&["echo", "abcd"]));
}

#[test]
fn double_quotes_escape_only_some_characters() {
    assert_eq!(words(r#"echo "a\"b""#), strings(&["echo", "a\"b"]));
    assert_eq!(words(r#"echo "a\\b""#), strings(&["echo", "a\\b"]));
    assert_eq!(words(r#"echo "a\$b""#), strings(&["echo", "a$b"]));
    assert_eq!(words(r#"echo "a\nb""#), strings(&["echo", "a\\nb"]));
    assert_eq!(words("echo \"it's  here\""), strings(&["echo", "it's  here"]));
}

#[test]
fn backslash_outside_quotes_takes_next_char() {
    assert_eq!(words(r"echo a\ b"), strings(&["echo", "a b"]));
    assert_eq!(words(r"echo \'x\'"), strings(&["echo", "'x'"]));
    assert_eq!(words(r"echo abc\"), strings(&["echo", "abc"]));
    assert_eq!(words("echo a\\   "), strings(&["echo", "a"]));
}

#[test]
fn unclosed_quotes_run_to_the_end() {
    assert_eq!(words("echo 'abc def"), strings(&["echo", "abc def"]));
    assert_eq!(words("echo \"abc\\"), strings(&["echo", "abc\\"]));
}

#[test]
fn empty_quotes_make_no_word() {
    assert_eq!(words("echo '' \"\""), strings(&["echo"]));
    assert_eq!(words("''"), Vec::<String>::new());
    assert_eq!(words(""), Vec::<String>::new());
}

#[test]
fn every_word_is_nonempty() {
    for line in ["a '' b", "\"\" '' x", "  ", "x\\", "'a' \"\" 'b'"] {
        assert!(words(line).iter().all(|w| !w.is_empty()));
    }
}

#[test]
fn joined_plain_words_split_back() {
    let ws = strings(&["ls", "-la", "/tmp", "x=1"]);
    assert_eq!(words(&ws.join(" ")), ws);
}

#[test]
fn quoted_text_is_one_word() {
    assert_eq!(words("'a b\\c \"d'"), strings(&["a b\\c \"d"]));
    assert_eq!(words("\"a b 'c'\""), strings(&["a b 'c'"]));
}

#[test]
fn classify_word_knows_the_operators() {
    assert!(classify_word(">") == Some(RedirectOp::Stdout));
    assert!(classify_word("1>") == Some(RedirectOp::Stdout));
    assert!(classify_word(">>") == Some(RedirectOp::StdoutAppend));
    assert!(classify_word("2>") == Some(RedirectOp::Stderr));
    assert!(classify_word("2>>") == Some(RedirectOp::StderrAppend));
    assert!(classify_word("1>>") == None);
    assert!(classify_word(">x") == None);
    assert!(classify_word("") == None);
}

fn path_of(l: &OutputLocation) -> Option<String> {
    l.get_filepath().map(|s| s.to_string())
}

#[test]
fn redirections_are_taken_out() {
    let (rest, out, err) = set_output_locations(strings(&["hi", ">", "out.txt", "there"]));
    assert_eq!(rest, strings(&["hi", "there"]));
    assert!(matches!(out, OutputLocation::File(ref p) if p == "out.txt"));
    assert!(matches!(err, OutputLocation::Console));

    let (rest, out, err) = set_output_locations(strings(&["a", "1>", "f", "2>>", "e"]));
    assert_eq!(rest, strings(&["a"]));
    assert_eq!(path_of(&out), Some("f".to_string()));
    assert!(matches!(err, OutputLocation::AppendToFile(ref p) if p == "e"));

    let (rest, out, err) = set_output_locations(strings(&[">>", "log", "2>", "errs"]));
    assert!(rest.is_empty());
    assert!(matches!(out, OutputLocation::AppendToFile(ref p) if p == "log"));
    assert!(matches!(err, OutputLocation::File(ref p) if p == "errs"));
}

#[test]
fn later_redirection_wins_and_dangling_operator_is_dropped() {
    let (rest, out, _) = set_output_locations(strings(&["x", ">", "a", ">>", "b", "y", ">"]));
    assert_eq!(rest, strings(&["x", "y"]));
    assert!(matches!(out, OutputLocation::AppendToFile(ref p) if p == "b"));
}

#[test]
fn operator_takes_an_operator_as_its_path() {
    let (rest, out, _) = set_output_locations(strings(&[">", ">", "z"]));
    assert_eq!(rest, strings(&["z"]));
    assert!(matches!(out, OutputLocation::File(ref p) if p == ">"));
}

#[test]
fn without_operators_nothing_is_redirected() {
    let ws = strings(&["a", "b>", "c"]);
    let (rest, out, err) = set_output_locations(ws.clone());
    assert_eq!(rest, ws);
    assert!(matches!(out, OutputLocation::Console));
    assert!(matches!(err, OutputLocation::Console));
}

#[test]
fn kept_arguments_hold_no_operator() {
    let (rest, _, _) = set_output_locations(strings(&[">", "2>", "x", ">>", "2>>", "1>"]));
    for w in &rest {
        assert!(classify_word(w).is_none());
    }
}

#[test]
fn parse_input_reads_head_tail_and_locations() {
    let (head, tail, out, err) = parse_input("  echo 'a  b' c > f.txt 2> e.txt ").unwrap();
    assert_eq!(head, Some("echo".to_string()));
    assert_eq!(tail, strings(&["a  b", "c"]));
    assert_eq!(path_of(&out), Some("f.txt".to_string()));
    assert_eq!(path_of(&err), Some("e.txt".to_string()));
}

#[test]
fn parse_input_of_no_words_is_none() {
    assert!(parse_input("").is_none());
    assert!(parse_input("   \t ").is_none());
    assert!(parse_input("'' \"\"").is_none());
}

#[test]
fn redirection_as_first_word_is_the_head() {
    let (head, tail, out, _) = parse_input("> x y").unwrap();
    assert_eq!(head, Some(">".to_string()));
    assert_eq!(tail, strings(&["x", "y"]));
    assert!(matches!(out, OutputLocation::Console));
}

#[test]
fn my_command_new_reads_the_line() {
    let c = MyCommand::new("cat a.txt b.txt >> all.txt");
    assert_eq!(c.head, Some("cat".to_string()));
    assert_eq!(c.tail, strings(&["a.txt", "b.txt"]));
    assert!(matches!(c.output_location, OutputLocation::AppendToFile(ref p) if p == "all.txt"));
    assert!(matches!(c.error_location, OutputLocation::Console));
}

#[test]
fn get_filepath_of_each_location() {
    assert_eq!(OutputLocation::Console.get_filepath(), None);
    assert_eq!(OutputLocation::File("a".to_string()).get_filepath(), Some("a"));
    assert_eq!(OutputLocation::AppendToFile("b".to_string()).get_filepath(), Some("b"));
}

#[test]
fn redirection_at_the_end_sends_the_stream_to_the_path() {
    let (rest, out, err) = set_output_locations(strings(&["a", "b", "2>>", "x"]));
    assert_eq!(rest, strings(&["a", "b"]));
    assert!(matches!(out, OutputLocation::Console));
    assert!(matches!(err, OutputLocation::AppendToFile(ref p) if p == "x"));
    let (rest, out, _) = set_output_locations(strings(&["a", ">", ">>"]));
    assert_eq!(rest, strings(&["a"]));
    assert!(matches!(out, OutputLocation::File(ref p) if p == ">>"));
}

#[test]
fn plain_lines_split_like_split_whitespace() {
    for line in ["  ls   -la\t/tmp  ", "a\u{3000}b\u{a0}c", "", "   ", "one", "x >y 2>>z"] {
        let expected: Vec<String> = line.split_whitespace().map(|s| s.to_string()).collect();
        assert_eq!(split_command_line(line), expected, "line {:?}", line);
    }
}

#[test]
fn plain_line_without_operators_is_a_plain_command() {
    let line = "  grep  -n  foo\tbar.txt ";
    let w: Vec<&str> = line.split_whitespace().collect();
    let (head, tail, out, err) = parse_input(line).unwrap();
    assert_eq!(head, Some(w[0].to_string()));
    assert_eq!(tail, strings(&w[1..]));
    assert!(matches!(out, OutputLocation::Console));
    assert!(matches!(err, OutputLocation::Console));
}
