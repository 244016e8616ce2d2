use tinyshell::completer::{
    is_executable, select_executables, sorted_unique, starts_with, text_less, DirEntryInfo,
    MyCompleter, MyHelper, TabEffect,
};

fn strings(v: &[&str]) -> Vec<String> {
    v.iter().map(|s| s.to_string()).collect()
}

fn chars(s: &str) -> Vec<char> {
    s.chars().collect()
}

#[test]
fn text_less_matches_string_order() {
    let samples = ["", "a", "ab", "b", "é", "€", "😀", "aa", "Z", "a b"];
    for a in samples {
        for b in samples {
            assert_eq!(text_less(&chars(a), &chars(b)), a < b, "{:?} < {:?}", a, b);
        }
    }
}

#[test]
fn starts_with_matches_std() {
    for (s, p) in [("echo", "ec"), ("echo", ""), ("echo", "echo"), ("echo", "echoo"), ("ex", "ec")] {
        assert_eq!(starts_with(&chars(s), &chars(p)), s.starts_with(p));
    }
}

#[test]
fn sorted_unique_sorts_and_dedups() {
    let v = strings(&["exit", "echo", "ls", "echo", "ab", "ls"]);
    let mut expected = v.clone();
    expected.sort();
    expected.dedup();
    assert_eq!(sorted_unique(&v), expected);
    assert_eq!(sorted_unique(&Vec::new()), Vec::<String>::new());
}

#[test]
fn executable_entries() {
    assert!(is_executable(true, Some(false)));
    assert!(is_executable(true, None));
    assert!(!is_executable(true, Some(true)));
    assert!(!is_executable(false, Some(false)));
}

#[test]
fn select_executables_filters_by_prefix_and_kind() {
    let e = |name: &str, is_file: bool, readonly: Option<bool>| DirEntryInfo {
        name: name.to_string(),
        is_file,
        readonly,
    };
    let entries = vec![
        e("grep", true, Some(false)),
        e("git", true, Some(true)),
        e("gitk", false, Some(false)),
        e("ls", true, Some(false)),
        e("gzip", true, None),
    ];
    assert_eq!(select_executables("g", &entries), strings(&["grep", "gzip"]));
    assert_eq!(select_executables("", &entries), strings(&["grep", "ls", "gzip"]));
    assert_eq!(select_executables("x", &entries), Vec::<String>::new());
}

#[test]
fn my_completer_offers_builtins_for_the_word() {
    let c = MyCompleter::new();
    let (start, cands) = c.complete("ls e", 4);
    assert_eq!(start, 3);
    let texts: Vec<&str> = cands.iter().map(|c| c.display()).collect();
    assert_eq!(texts, vec!["echo ", "exit "]);
    let (start, cands) = c.complete("ec", 2);
    assert_eq!(start, 0);
    assert_eq!(cands.len(), 1);
    assert_eq!(cands[0].replacement(), "echo ");
    let (start, cands) = c.complete("é x", 4);
    assert_eq!(start, 3);
    assert!(cands.is_empty());
    let (start, cands) = c.complete("echo ex", 5);
    assert_eq!(start, 5);
    assert_eq!(cands.len(), 2);
}

#[test]
fn helper_with_no_candidate() {
    let mut h = MyHelper::new();
    let r = h.complete("zz", 2, &Vec::new());
    assert_eq!(r.start, 2);
    assert!(r.candidates.is_empty());
    assert!(matches!(r.effect, TabEffect::Quiet));
}

#[test]
fn helper_with_one_candidate_replaces_the_text() {
    let mut h = MyHelper::new();
    let r = h.complete("ech", 3, &Vec::new());
    assert_eq!(r.start, 0);
    assert_eq!(r.candidates.len(), 1);
    assert_eq!(r.candidates[0].display, "echo");
    assert_eq!(r.candidates[0].replacement, "echo ");
    let r = h.complete("gre", 3, &strings(&["grep", "grep"]));
    assert_eq!(r.candidates.len(), 1);
    assert_eq!(r.candidates[0].replacement, "grep ");
}

#[test]
fn helper_rings_then_lists() {
    let mut h = MyHelper::new();
    let ext = strings(&["exa", "echo"]);
    let r = h.complete("e ", 1, &ext);
    assert_eq!(r.start, 1);
    assert!(r.candidates.is_empty());
    assert!(matches!(r.effect, TabEffect::Bell));
    assert_eq!(r.effect.terminal_text(), "\u{7}");
    let r = h.complete("e ", 1, &ext);
    match &r.effect {
        TabEffect::ShowCandidates(t) => assert_eq!(t, "\necho  exa  exit\n$ e"),
        _ => panic!("expected a listing"),
    }
    assert_eq!(r.effect.terminal_text(), "\necho  exa  exit\n$ e");
    let r = h.complete("e ", 1, &ext);
    assert!(matches!(r.effect, TabEffect::Quiet));
    let r = h.complete("e ", 1, &ext);
    assert!(matches!(r.effect, TabEffect::ShowCandidates(_)));
}

#[test]
fn helper_listing_trims_the_prompt_text() {
    let mut h = MyHelper::new();
    let ext = strings(&["e1", "e2"]);
    let _ = h.complete("e  x", 3, &ext);
    let r = h.complete("e  x", 3, &ext);
    assert_eq!(r.effect.terminal_text(), "\ne1  e2\n$ e");
}

#[test]
fn helper_rings_again_on_a_new_text() {
    let mut h = MyHelper::new();
    let ext = strings(&["eat", "egg"]);
    assert!(matches!(h.complete("e", 1, &ext).effect, TabEffect::Bell));
    assert!(matches!(h.complete("ex", 2, &strings(&["exa"])).effect, TabEffect::Bell));
    assert!(matches!(h.complete("e", 1, &ext).effect, TabEffect::Bell));
    assert_eq!(TabEffect::Quiet.terminal_text(), "");
}

#[test]
fn helper_count_is_zero_until_a_text_is_remembered() {
    // Completions with at most one name leave the state alone, so a later
    // TAB with several names on a new text still rings first.
    let mut h = MyHelper::new();
    let _ = h.complete("ech", 3, &Vec::new());
    let _ = h.complete("zz", 2, &Vec::new());
    let ext = strings(&["eat", "egg"]);
    assert!(matches!(h.complete("e", 1, &ext).effect, TabEffect::Bell));
    assert!(matches!(h.complete("e", 1, &ext).effect, TabEffect::ShowCandidates(_)));
    assert!(matches!(h.complete("e", 1, &ext).effect, TabEffect::Quiet));
}
