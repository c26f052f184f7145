use zash::environment::Env;
use zash::parsers::parser::{cmd_to_words, expand_word, parse_cmd, WordPart};
use zash::parsers::tokens::ParseCmdTokens;
use zash::parsers::tokens::ParseCmdTokens::{Command, Separator};

fn sv(parts: &[&str]) -> Vec<String> {
    parts.iter().map(|p| p.to_string()).collect()
}

fn env_with_test_var() -> Env {
    let mut env = Env::new();
    env.set("tesrakijds".to_string(), "hello".to_string());
    env
}

#[test]
fn test_parser() {
    let v: Vec<(&str, Vec<(ParseCmdTokens, Vec<String>)>)> = vec![
        (
            "echo hello world",
            vec![(Command, sv(&["echo", "hello", "world"]))],
        ),
        ("echo $tesrakijds", vec![(Command, sv(&["echo", "hello"]))]),
        (
            "echo /home/$tesrakijds",
            vec![(Command, sv(&["echo", "/home/hello"]))],
        ),
        (
            "echo $tesrakijds/.config",
            vec![(Command, sv(&["echo", "hello/.config"]))],
        ),
        (
            "echo /home/$tesrakijds/.config",
            vec![(Command, sv(&["echo", "/home/hello/.config"]))],
        ),
        (
            "echo 'hello world'",
            vec![(Command, sv(&["echo", "hello world"]))],
        ),
        (
            "echo \"hello world\"",
            vec![(Command, sv(&["echo", "hello world"]))],
        ),
        (
            "echo hello\\ world",
            vec![(Command, sv(&["echo", "hello world"]))],
        ),
        ("TEST=$tesrakijds:/root/.config", vec![]),
    ];
    let mut env = env_with_test_var();
    let home = "/root".to_string();
    for (l, r) in v {
        assert_eq!(parse_cmd(l.to_string(), 0, &mut env, &home).unwrap(), r);
    }
    let t = env.get("TEST").unwrap();
    assert_eq!(t.as_str(), "hello:/root/.config");
}

#[test]
fn status_expansion() {
    let mut env = Env::new();
    let home = "/root".to_string();
    let r = parse_cmd("echo $?".to_string(), 1, &mut env, &home).unwrap();
    assert_eq!(r, vec![(Command, sv(&["echo", "1"]))]);
    let r = parse_cmd("echo $?".to_string(), -7, &mut env, &home).unwrap();
    assert_eq!(r, vec![(Command, sv(&["echo", "-7"]))]);
}

#[test]
fn missing_variable_expands_to_nothing() {
    let mut env = Env::new();
    let home = "/root".to_string();
    let r = parse_cmd("echo $zz_unset_zz".to_string(), 0, &mut env, &home).unwrap();
    assert_eq!(r, vec![(Command, sv(&["echo", ""]))]);
}

#[test]
fn tilde_expansion_uses_home() {
    let mut env = Env::new();
    let home = "/home/someone".to_string();
    let r = parse_cmd("echo ~/notes".to_string(), 0, &mut env, &home).unwrap();
    assert_eq!(r, vec![(Command, sv(&["echo", "/home/someone/notes"]))]);
}

#[test]
fn pipes_split_segments() {
    let mut env = Env::new();
    let home = "/root".to_string();
    let r = parse_cmd("echo hi | wc -c".to_string(), 0, &mut env, &home).unwrap();
    assert_eq!(
        r,
        vec![
            (Command, sv(&["echo", "hi"])),
            (Separator, sv(&["|"])),
            (Command, sv(&["wc", "-c"])),
        ]
    );
}

#[test]
fn pipe_errors() {
    let mut env = Env::new();
    let home = "/root".to_string();
    assert!(parse_cmd("| echo hi".to_string(), 0, &mut env, &home).is_err());
    assert!(parse_cmd("echo hi |".to_string(), 0, &mut env, &home).is_err());
    assert!(parse_cmd("a | | b".to_string(), 0, &mut env, &home).is_err());
}

#[test]
fn unterminated_quote_is_a_syntax_error() {
    let mut env = Env::new();
    let home = "/root".to_string();
    assert!(parse_cmd("echo \"abc".to_string(), 0, &mut env, &home).is_err());
    assert!(parse_cmd("echo 'abc".to_string(), 0, &mut env, &home).is_err());
    let err = parse_cmd("echo 'abc".to_string(), 0, &mut env, &home).unwrap_err();
    assert_eq!(err.message().as_str(), "SyntaxError: Unexpected end of input");
}

#[test]
fn invalid_glob_pattern_drops_the_word() {
    let mut env = Env::new();
    let home = "/root".to_string();
    let r = parse_cmd("echo [".to_string(), 0, &mut env, &home).unwrap();
    assert_eq!(r, vec![(Command, sv(&["echo"]))]);
}

#[test]
fn unmatched_glob_keeps_the_word() {
    let mut env = Env::new();
    let home = "/root".to_string();
    let r = parse_cmd("echo zz_no_such_file_zz*".to_string(), 0, &mut env, &home).unwrap();
    assert_eq!(r, vec![(Command, sv(&["echo", "zz_no_such_file_zz*"]))]);
}

#[test]
fn matching_glob_expands_the_word() {
    let mut env = Env::new();
    let home = "/root".to_string();
    let r = parse_cmd("ls /*".to_string(), 0, &mut env, &home).unwrap();
    assert_eq!(r.len(), 1);
    let argv = &r[0].1;
    assert_eq!(argv[0].as_str(), "ls");
    assert!(argv.len() > 1);
    for a in argv.iter() {
        assert_ne!(a.as_str(), "/*");
    }
}

#[test]
fn assignment_with_empty_value() {
    let mut env = Env::new();
    let home = "/root".to_string();
    let r = parse_cmd("X=".to_string(), 0, &mut env, &home).unwrap();
    assert_eq!(r, vec![]);
    assert_eq!(env.get("X").unwrap().as_str(), "");
}

#[test]
fn assignment_value_stops_at_second_equals() {
    let mut env = Env::new();
    let home = "/root".to_string();
    // Unquoted, a second `=` is dropped by the tokenizer: the name check
    // fails on "A=b", so the character is not appended.
    let r = parse_cmd("A=b=c".to_string(), 0, &mut env, &home).unwrap();
    assert_eq!(r, vec![]);
    assert_eq!(env.get("A").unwrap().as_str(), "bc");
    // Quoted, it survives to the value, which then stops at it.
    let r = parse_cmd("B=\"b=c\"".to_string(), 0, &mut env, &home).unwrap();
    assert_eq!(r, vec![]);
    assert_eq!(env.get("B").unwrap().as_str(), "b");
}

#[test]
fn exports_are_logged_for_the_process() {
    let mut env = Env::new();
    let home = "/root".to_string();
    parse_cmd("A=1".to_string(), 0, &mut env, &home).unwrap();
    parse_cmd("B=2".to_string(), 0, &mut env, &home).unwrap();
    let log = env.drain_exports();
    assert_eq!(log.len(), 2);
    assert_eq!(log[0].0.as_str(), "A");
    assert_eq!(log[0].1.as_str(), "1");
    assert_eq!(log[1].0.as_str(), "B");
    assert_eq!(log[1].1.as_str(), "2");
    assert!(env.drain_exports().is_empty());
}

#[test]
fn words_and_pipes_before_grouping() {
    let mut env = Env::new();
    let home = "/root".to_string();
    let words = cmd_to_words(&"echo a|b".to_string(), 0, &mut env, &home).unwrap();
    assert_eq!(words.len(), 4);
    assert!(matches!(&words[0], WordPart::Word(w) if w.as_str() == "echo"));
    assert!(matches!(&words[1], WordPart::Word(w) if w.as_str() == "a"));
    assert!(matches!(&words[2], WordPart::Pipe(p) if p.as_str() == "|"));
    assert!(matches!(&words[3], WordPart::Word(w) if w.as_str() == "b"));
}

#[test]
fn word_expansion_outcomes() {
    let r = expand_word("w".to_string(), None);
    assert!(r.is_empty());
    let r = expand_word("w".to_string(), Some(vec![]));
    assert_eq!(r, vec!["w".to_string()]);
    let r = expand_word("w".to_string(), Some(vec!["m1".to_string(), "m2".to_string()]));
    assert_eq!(r, vec!["m1".to_string(), "m2".to_string()]);
}

#[test]
fn quoting_does_not_suppress_globbing() {
    let mut env = Env::new();
    let home = "/root".to_string();
    let r = parse_cmd("echo \"zz_no_such_file_zz*\"".to_string(), 0, &mut env, &home).unwrap();
    assert_eq!(r, vec![(Command, sv(&["echo", "zz_no_such_file_zz*"]))]);
}
