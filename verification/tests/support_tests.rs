use zash::chars::trim_str;
use zash::numbers::{i32_to_string, parse_i32};
use zash::parsers::lexer::{cmd_to_tokens, is_valid_variable_name};
use zash::parsers::tokens::CmdTokens;

#[test]
fn integers_print_in_decimal() {
    assert_eq!(i32_to_string(0).as_str(), "0");
    assert_eq!(i32_to_string(7).as_str(), "7");
    assert_eq!(i32_to_string(-123).as_str(), "-123");
    assert_eq!(i32_to_string(2147483647).as_str(), "2147483647");
    assert_eq!(i32_to_string(-2147483648).as_str(), "-2147483648");
}

#[test]
fn integers_parse_like_from_str() {
    assert_eq!(parse_i32("42"), Some(42));
    assert_eq!(parse_i32("+42"), Some(42));
    assert_eq!(parse_i32("-42"), Some(-42));
    assert_eq!(parse_i32("2147483647"), Some(2147483647));
    assert_eq!(parse_i32("-2147483648"), Some(-2147483648));
    assert_eq!(parse_i32("2147483648"), None);
    assert_eq!(parse_i32("-2147483649"), None);
    assert_eq!(parse_i32(""), None);
    assert_eq!(parse_i32("-"), None);
    assert_eq!(parse_i32("1 2"), None);
    assert_eq!(parse_i32("12x"), None);
    assert_eq!(parse_i32("007"), Some(7));
}

#[test]
fn trimming_matches_std() {
    assert_eq!(trim_str("  a b  ").as_str(), "a b");
    assert_eq!(trim_str("\t\n x \r\n").as_str(), "x");
    assert_eq!(trim_str("   ").as_str(), "");
    assert_eq!(trim_str("").as_str(), "");
}

#[test]
fn variable_names() {
    assert!(is_valid_variable_name("abc_123".to_string()));
    assert!(is_valid_variable_name("a?".to_string()));
    assert!(is_valid_variable_name("".to_string()));
    assert!(!is_valid_variable_name("a-b".to_string()));
    assert!(!is_valid_variable_name("a$b".to_string()));
    assert!(!is_valid_variable_name("a b".to_string()));
}

#[test]
fn tokenizer_kinds_and_join_flags() {
    let toks = cmd_to_tokens("pre$VAR/post").unwrap();
    assert_eq!(
        toks,
        vec![
            (CmdTokens::Normal, "pre".to_string(), true),
            (CmdTokens::Variable, "VAR".to_string(), true),
            (CmdTokens::Normal, "/post".to_string(), false),
        ]
    );
    let toks = cmd_to_tokens("A=1 b|c").unwrap();
    assert_eq!(
        toks,
        vec![
            (CmdTokens::Definition, "A=1".to_string(), false),
            (CmdTokens::Normal, "b".to_string(), false),
            (CmdTokens::Pipe, "|".to_string(), false),
            (CmdTokens::Normal, "c".to_string(), false),
        ]
    );
    assert!(cmd_to_tokens("open \"quote").is_err());
    assert!(cmd_to_tokens("trailing\\").is_err());
}

#[test]
fn pipe_flush_emits_a_normal_token() {
    // A pending assignment flushed by a pipe comes out as a `Normal`
    // token, and the word after the pipe starts a fresh token: every
    // `Definition` the tokenizer emits carries its `=`.
    let toks = cmd_to_tokens("A=1|b c").unwrap();
    assert_eq!(
        toks,
        vec![
            (CmdTokens::Normal, "A=1".to_string(), false),
            (CmdTokens::Pipe, "|".to_string(), false),
            (CmdTokens::Normal, "b".to_string(), false),
            (CmdTokens::Normal, "c".to_string(), false),
        ]
    );
}

#[test]
fn quotes_are_consumed_by_the_tokenizer() {
    let toks = cmd_to_tokens("echo 'a b'").unwrap();
    assert_eq!(
        toks,
        vec![
            (CmdTokens::Normal, "echo".to_string(), false),
            (CmdTokens::Normal, "a b".to_string(), false),
        ]
    );
}
