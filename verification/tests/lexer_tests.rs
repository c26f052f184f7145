use zash::parsers::lexer::line_to_cmds;
use zash::parsers::tokens::LineToCmdTokens;
use zash::parsers::tokens::LineToCmdTokens::{Command, Separator};
use zash::parser::line_to_cmds as old_line_to_cmds;
use zash::parser::LineTCmdTokens;
use zash::parser::LineTCmdTokens::{Command as OldCommand, Separator as OldSeparator};

fn s(input: &str) -> String {
    input.to_string()
}

#[test]
fn test_line_to_cmds() {
    let v: Vec<(&str, Vec<(LineToCmdTokens, String)>)> = vec![
        ("   ls  ", vec![(Command, s("ls"))]),
        ("ls", vec![(Command, s("ls"))]),
        (
            "echo morning & echo night",
            vec![(Command, s("echo morning & echo night"))],
        ),
        (
            "echo morning && echo night",
            vec![
                (Command, s("echo morning")),
                (Separator, s("&&")),
                (Command, s("echo night")),
            ],
        ),
        ("ls | grep .bashrc", vec![(Command, s("ls | grep .bashrc"))]),
        (
            r#"echo "What an awesome day && nice weather""#,
            vec![(Command, s(r#"echo "What an awesome day && nice weather""#))],
        ),
        (
            r#"echo 'What an awesome day && nice weather'"#,
            vec![(Command, s(r#"echo 'What an awesome day && nice weather'"#))],
        ),
        (
            r#"echo \"What an awesome day && nice weather\""#,
            vec![
                (Command, s(r#"echo \"What an awesome day"#)),
                (Separator, s("&&")),
                (Command, s(r#"nice weather\""#)),
            ],
        ),
        (
            r#"echo What an awesome day \&\& nice weather"#,
            vec![(Command, s(r#"echo What an awesome day \&\& nice weather"#))],
        ),
        (";", vec![(Separator, s(";"))]),
    ];
    for (l, r) in v {
        assert_eq!(line_to_cmds(l), r);
    }
}

#[test]
fn lexer_test_line_to_cmds() {
    let v: Vec<(&str, Vec<(LineTCmdTokens, String)>)> = vec![
        ("   ls  ", vec![(OldCommand, s("ls"))]),
        ("ls", vec![(OldCommand, s("ls"))]),
        (
            "echo morning & echo night",
            vec![(OldCommand, s("echo morning & echo night"))],
        ),
        (
            "echo morning && echo night",
            vec![
                (OldCommand, s("echo morning")),
                (OldSeparator, s("&&")),
                (OldCommand, s("echo night")),
            ],
        ),
        ("ls | grep .bashrc", vec![(OldCommand, s("ls | grep .bashrc"))]),
        (
            r#"echo "What an awesome day && nice weather""#,
            vec![(OldCommand, s(r#"echo "What an awesome day && nice weather""#))],
        ),
        (
            r#"echo 'What an awesome day && nice weather'"#,
            vec![(OldCommand, s(r#"echo 'What an awesome day && nice weather'"#))],
        ),
        (
            r#"echo \"What an awesome day && nice weather\""#,
            vec![
                (OldCommand, s(r#"echo \"What an awesome day"#)),
                (OldSeparator, s("&&")),
                (OldCommand, s(r#"nice weather\""#)),
            ],
        ),
        (
            r#"echo What an awesome day \&\& nice weather"#,
            vec![(OldCommand, s(r#"echo What an awesome day \&\& nice weather"#))],
        ),
        (";", vec![(OldSeparator, s(";"))]),
    ];
    for (l, r) in v {
        assert_eq!(old_line_to_cmds(l), r);
    }
}

#[test]
fn line_comment_cuts_the_line() {
    assert_eq!(
        line_to_cmds("echo hi # a comment ; echo no"),
        vec![(Command, s("echo hi"))]
    );
    assert_eq!(line_to_cmds("# only a comment"), vec![]);
}

#[test]
fn double_quoted_escapes_collapse() {
    assert_eq!(
        line_to_cmds(r#"echo "a\"b\\c\d""#),
        vec![(Command, s(r#"echo "a"b\c\d""#))]
    );
}
