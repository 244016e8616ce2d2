use tinyshell::decode_command::{
    cat_argument_listing,
    cd_failure_message, command_not_found, describe_type, is_builtin, is_surrounded_by_quotes,
    names_home_directory, parse_exit_code, plan, remove_surrounding_quotes, rendered_output,
    ShellAction,
};
use tinyshell::input::{MyCommand, OutputLocation};

fn strings(v: &[&str]) -> Vec<String> {
    v.iter().map(|s| s.to_string()).collect()
}

#[test]
fn quotes_around_an_argument() {
    assert!(is_surrounded_by_quotes("'abc'"));
    assert!(is_surrounded_by_quotes("\"abc\""));
    assert!(is_surrounded_by_quotes("'"));
    assert!(!is_surrounded_by_quotes("'abc\""));
    assert!(!is_surrounded_by_quotes("abc'"));
    assert!(!is_surrounded_by_quotes(""));
}

#[test]
fn removing_surrounding_quotes() {
    assert_eq!(remove_surrounding_quotes("'abc'"), "abc");
    assert_eq!(remove_surrounding_quotes("\"'a'b'\""), "a'b");
    assert_eq!(remove_surrounding_quotes("''\"\""), "");
    assert_eq!(remove_surrounding_quotes("plain"), "plain");
    let once = remove_surrounding_quotes("'\"x y\"'");
    assert_eq!(once, "x y");
    assert_eq!(remove_surrounding_quotes(&once), once);
}

#[test]
fn removing_quotes_matches_trim_matches() {
    for s in ["'a'", "\"\"x\"", "'", "a'b", "'\"'\"", "é'"] {
        assert_eq!(remove_surrounding_quotes(s), s.trim_matches(|c| c == '"' || c == '\''));
    }
}

#[test]
fn exit_codes_parse_as_i32() {
    for s in [
        "0", "1", "42", "+7", "-3", "-", "+", "", "007", "12a", " 1", "2147483647",
        "2147483648", "-2147483648", "-2147483649", "99999999999999999999", "--1", "+-1", "٣",
    ] {
        assert_eq!(parse_exit_code(s), s.parse::<i32>().ok(), "input {:?}", s);
    }
}

#[test]
fn builtins_are_known() {
    for b in ["exit", "echo", "type", "pwd", "cd"] {
        assert!(is_builtin(b));
    }
    assert!(!is_builtin("cat"));
    assert!(!is_builtin("ls"));
    assert!(!is_builtin("ech"));
}

#[test]
fn plan_exit() {
    assert!(matches!(plan(&MyCommand::new("exit 0")), ShellAction::Exit(Some(0))));
    assert!(matches!(plan(&MyCommand::new("exit -5 x")), ShellAction::Exit(Some(-5))));
    assert!(matches!(plan(&MyCommand::new("exit")), ShellAction::Exit(None)));
    assert!(matches!(plan(&MyCommand::new("exit abc")), ShellAction::Exit(None)));
}

#[test]
fn plan_echo_joins_arguments() {
    match plan(&MyCommand::new("echo 'a  b'   c > out")) {
        ShellAction::Echo(t) => assert_eq!(t, "a  b c"),
        _ => panic!("expected echo"),
    }
    match plan(&MyCommand::new("echo")) {
        ShellAction::Echo(t) => assert_eq!(t, ""),
        _ => panic!("expected echo"),
    }
}

#[test]
fn plan_other_commands() {
    match plan(&MyCommand::new("type echo ls")) {
        ShellAction::Type(v) => assert_eq!(v, strings(&["echo", "ls"])),
        _ => panic!("expected type"),
    }
    assert!(matches!(plan(&MyCommand::new("pwd")), ShellAction::PrintWorkingDirectory));
    match plan(&MyCommand::new("cd ~")) {
        ShellAction::ChangeDirectory(Some(d)) => assert_eq!(d, "~"),
        _ => panic!("expected cd"),
    }
    assert!(matches!(plan(&MyCommand::new("cd")), ShellAction::ChangeDirectory(None)));
    match plan(&MyCommand::new("cat a b")) {
        ShellAction::Cat(v) => assert_eq!(v, strings(&["a", "b"])),
        _ => panic!("expected cat"),
    }
    match plan(&MyCommand::new("ls -l /")) {
        ShellAction::Run(h, v) => {
            assert_eq!(h, "ls");
            assert_eq!(v, strings(&["-l", "/"]));
        },
        _ => panic!("expected run"),
    }
}

#[test]
fn type_reports() {
    let tail = strings(&["echo", "nosuch", "ls"]);
    assert_eq!(describe_type("echo", &tail, None), "echo is a shell builtin");
    assert_eq!(
        describe_type("cd", &tail, Some("/bin/cd".to_string())),
        "cd is a shell builtin"
    );
    assert_eq!(describe_type("ls", &tail, Some("/bin/ls".to_string())), "ls is /bin/ls");
    assert_eq!(describe_type("nosuch", &tail, None), "echo nosuch ls not found");
}

#[test]
fn messages() {
    assert_eq!(command_not_found("foo"), "foo: command not found");
    assert_eq!(cd_failure_message("/nowhere"), "cd: /nowhere: No such file or directory");
    assert!(names_home_directory("~"));
    assert!(!names_home_directory("~/x"));
    assert!(!names_home_directory(""));
}

#[test]
fn rendered_output_per_location() {
    assert_eq!(rendered_output("hi  \n", &OutputLocation::Console), "hi\n");
    assert_eq!(rendered_output("hi  \n", &OutputLocation::File("f".to_string())), "hi  \n\n");
    assert_eq!(rendered_output("x", &OutputLocation::AppendToFile("f".to_string())), "x\n");
    assert_eq!(rendered_output("", &OutputLocation::Console), "\n");
}

#[test]
fn cat_lists_several_arguments_in_debug_form() {
    let two = strings(&["a.txt", "b \"c\".txt"]);
    assert_eq!(cat_argument_listing(&two), Some(format!("{:?}", two)));
    assert_eq!(cat_argument_listing(&two).unwrap(), "[\"a.txt\", \"b \\\"c\\\".txt\"]");
    assert_eq!(cat_argument_listing(&strings(&["one"])), None);
    assert_eq!(cat_argument_listing(&Vec::new()), None);
}
