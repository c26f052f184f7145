use zash::builtins::cd::{cd, CdAction};
use zash::builtins::echo::echo;
use zash::builtins::exit::{exit, ExitAction};
use zash::environment::Env;
use zash::parser::Parser;
use zash::parsers::parser::parse_cmd;
use zash::parsers::tokens::ParseCmdTokens;
use zash::shell::{plan_parts, LineRunner, Shell, Step};

#[test]
fn shell_starts_with_status_zero() {
    let shell = Shell::new();
    assert_eq!(shell.status, 0);
}

#[test]
fn and_skips_after_failure() {
    let mut runner = LineRunner::new("false && echo x");
    let first = runner.next_command(0);
    assert_eq!(first.unwrap().as_str(), "false");
    // `false` exited non-zero: `&&` stops the line.
    let second = runner.next_command(1);
    assert!(second.is_none());
}

#[test]
fn and_runs_after_success() {
    let mut runner = LineRunner::new("true && echo x");
    assert_eq!(runner.next_command(0).unwrap().as_str(), "true");
    assert_eq!(runner.next_command(0).unwrap().as_str(), "echo x");
    assert!(runner.next_command(0).is_none());
}

#[test]
fn or_runs_after_failure() {
    let mut runner = LineRunner::new("false || echo x");
    assert_eq!(runner.next_command(0).unwrap().as_str(), "false");
    assert_eq!(runner.next_command(1).unwrap().as_str(), "echo x");
    assert!(runner.next_command(0).is_none());
}

#[test]
fn or_skips_after_success() {
    let mut runner = LineRunner::new("true || echo x");
    assert_eq!(runner.next_command(0).unwrap().as_str(), "true");
    assert!(runner.next_command(0).is_none());
}

#[test]
fn semicolon_always_runs_both() {
    let mut runner = LineRunner::new("false ; echo x");
    assert_eq!(runner.next_command(0).unwrap().as_str(), "false");
    assert_eq!(runner.next_command(23).unwrap().as_str(), "echo x");
}

#[test]
fn pipeline_plan_marks_piped_segments() {
    let mut env = Env::new();
    let home = "/root".to_string();
    let parts = parse_cmd("echo hi | wc -c".to_string(), 0, &mut env, &home).unwrap();
    let plan = plan_parts(&parts);
    assert_eq!(plan.len(), 3);
    match &plan[0] {
        Step::Spawn { argv, piped } => {
            assert_eq!(argv[0].as_str(), "echo");
            assert_eq!(argv[1].as_str(), "hi");
            assert!(*piped);
        }
        _ => panic!("first segment should spawn"),
    }
    assert!(matches!(plan[1], Step::PipeJoin));
    match &plan[2] {
        Step::Spawn { argv, piped } => {
            assert_eq!(argv[0].as_str(), "wc");
            assert_eq!(argv[1].as_str(), "-c");
            assert!(!*piped);
        }
        _ => panic!("last segment should spawn"),
    }
}

#[test]
fn unimplemented_redirection_is_flagged() {
    let mut env = Env::new();
    let home = "/root".to_string();
    let parts = parse_cmd("echo hi > out".to_string(), 0, &mut env, &home).unwrap();
    let plan = plan_parts(&parts);
    assert!(plan.iter().any(|s| matches!(s, Step::Unimplemented)));
}

#[test]
fn builtins_are_dispatched_in_the_plan() {
    let mut env = Env::new();
    let home = "/root".to_string();
    let parts = parse_cmd("cd /tmp".to_string(), 0, &mut env, &home).unwrap();
    let plan = plan_parts(&parts);
    assert_eq!(plan.len(), 1);
    match &plan[0] {
        Step::RunCd(args) => {
            assert_eq!(args.len(), 1);
            assert_eq!(args[0].as_str(), "/tmp");
        }
        _ => panic!("cd should be a builtin step"),
    }
    let parts = parse_cmd("exit 3".to_string(), 0, &mut env, &home).unwrap();
    let plan = plan_parts(&parts);
    match &plan[0] {
        Step::RunExit(args) => {
            assert_eq!(args[0].as_str(), "3");
        }
        _ => panic!("exit should be a builtin step"),
    }
}

#[test]
fn empty_command_is_flagged() {
    let parts = vec![(ParseCmdTokens::Command, Vec::<String>::new())];
    let plan = plan_parts(&parts);
    assert!(matches!(plan[0], Step::EmptyCommand));
}

#[test]
fn cd_decisions() {
    let none: Vec<String> = vec![];
    assert!(matches!(cd(&none), CdAction::NoChange));
    let one = vec!["/no/such/dir".to_string()];
    match cd(&one) {
        CdAction::ChangeTo(d) => assert_eq!(d.as_str(), "/no/such/dir"),
        _ => panic!("one argument should change directory"),
    }
    let two = vec!["a".to_string(), "b".to_string()];
    assert!(matches!(cd(&two), CdAction::TooManyArgs));
}

#[test]
fn exit_decisions() {
    assert!(matches!(exit(vec![]), ExitAction::Terminate(0)));
    assert!(matches!(
        exit(vec!["5".to_string()]),
        ExitAction::Terminate(5)
    ));
    assert!(matches!(
        exit(vec!["-3".to_string()]),
        ExitAction::Terminate(-3)
    ));
    assert!(matches!(
        exit(vec!["abc".to_string()]),
        ExitAction::NumericError
    ));
    assert!(matches!(
        exit(vec!["99999999999999".to_string()]),
        ExitAction::NumericError
    ));
    assert!(matches!(
        exit(vec!["2147483647".to_string()]),
        ExitAction::Terminate(2147483647)
    ));
    assert!(matches!(
        exit(vec!["-2147483648".to_string()]),
        ExitAction::Terminate(-2147483648)
    ));
    assert!(matches!(
        exit(vec!["2147483648".to_string()]),
        ExitAction::NumericError
    ));
}

#[test]
fn parser_yields_words() {
    let mut p = Parser::new("hello world", " ".to_string(), false);
    assert_eq!(p.next().unwrap().as_str(), "hello");
    assert_eq!(p.next().unwrap().as_str(), "world");
    assert!(p.next().is_none());
}

#[test]
fn parser_strips_quotes_unless_kept() {
    let mut p = Parser::new("say 'a b' last", " ".to_string(), false);
    assert_eq!(p.next().unwrap().as_str(), "say");
    assert_eq!(p.next().unwrap().as_str(), "a b");
    assert_eq!(p.next().unwrap().as_str(), "last");
    // With keep_escape only the opening quote is kept: the closing arm of
    // the machine never appends its character.
    let mut p = Parser::new("'a b'", " ".to_string(), true);
    assert_eq!(p.next().unwrap().as_str(), "'a b");
}

#[test]
fn echo_joins_arguments() {
    let p = Parser::new("a 'b c' d", " ".to_string(), false);
    assert_eq!(echo(p).as_str(), "ab cd");
}
