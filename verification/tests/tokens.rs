use mustache_lexer::LexError;
use mustache_lexer::Token;
use mustache_lexer::Token::{Hat, Id, LMustache, Pound, RMustache, Slash, Text, UnescapeTag};
use mustache_lexer::Tokenlizer;
use mustache_lexer::is_id;

fn test_parser(source: &str, expected: Vec<Token>) {
    let mut tokenlizer = Tokenlizer::new("{{", "}}", source);
    let mut result: Vec<Token> = Vec::new();
    while let Some(t) = tokenlizer.read_token() {
        result.push(t);
    }
    assert_eq!(result, expected);
}

#[test]
fn test_push_back() {
    let mut tokenlizer = Tokenlizer::new("{{", "}}", "abc");

    assert_eq!(tokenlizer.read(), Some('a'));
    tokenlizer.push_back_char('a');
    assert_eq!(tokenlizer.read(), Some('a'));

    tokenlizer.push_back_char('a');
    assert_eq!(tokenlizer.read_str(3), Some("abc".to_string()));

    tokenlizer.push_back_str("abc");
    assert_eq!(tokenlizer.read_str(3), Some("abc".to_string()));
}

#[test]
fn test_parse_mustache() {
    test_parser(
        "abc{{bcd}}",
        vec![Text("abc".to_string()), LMustache, Id("bcd".to_string()), RMustache],
    );
}

#[test]
fn test_parse_other_ops() {
    test_parser(
        "abc{{^ # abc}}bcd",
        vec![
            Text("abc".to_string()),
            LMustache,
            Hat,
            Pound,
            Id("abc".to_string()),
            RMustache,
            Text("bcd".to_string()),
        ],
    );
}

#[test]
fn test_pushback_empty_string() {
    let mut tokenlizer = Tokenlizer::new("{{", "}}", "xy");
    tokenlizer.push_back_str("");
    assert_eq!(tokenlizer.read_str(0), Some("".to_string()));
    assert_eq!(tokenlizer.read(), Some('x'));
    tokenlizer.push_back_str("stu");
    assert_eq!(tokenlizer.read_str(3), Some("stu".to_string()));
    assert_eq!(tokenlizer.read(), Some('y'));
    assert_eq!(tokenlizer.read(), None);
}

#[test]
fn test_read_str_all_or_nothing() {
    let mut tokenlizer = Tokenlizer::new("{{", "}}", "ab");
    // Too few characters are left: nothing may be consumed.
    assert_eq!(tokenlizer.read_str(3), None);
    assert_eq!(tokenlizer.read_str(2), Some("ab".to_string()));
    assert_eq!(tokenlizer.read(), None);
}

#[test]
fn test_starts_with() {
    let mut tokenlizer = Tokenlizer::new("{{", "}}", "abcd");
    assert!(tokenlizer.starts_with("ab"));
    // "ab" was consumed, so it no longer stands at the front.
    assert!(!tokenlizer.starts_with("ab"));
    assert_eq!(tokenlizer.read_str(2), Some("cd".to_string()));
}

#[test]
fn test_read_until() {
    let mut tokenlizer = Tokenlizer::new("{{", "}}", "hello{{x");
    assert_eq!(tokenlizer.read_until("{{"), Some("hello".to_string()));
    // The delimiter was pushed back and can be read again.
    assert_eq!(tokenlizer.read_str(2), Some("{{".to_string()));
    // No delimiter left: the rest is returned whole.
    assert_eq!(tokenlizer.read_until("{{"), Some("x".to_string()));
    // Empty input: none.
    assert_eq!(tokenlizer.read_until("{{"), None);
}

#[test]
fn test_read_until_delimiter_at_front() {
    let mut tokenlizer = Tokenlizer::new("{{", "}}", "{{x");
    assert_eq!(tokenlizer.read_until("{{"), None);
    // Nothing was consumed.
    assert_eq!(tokenlizer.read_str(3), Some("{{x".to_string()));
}

#[test]
fn test_skip_ws() {
    let mut tokenlizer = Tokenlizer::new("{{", "}}", "   x y");
    tokenlizer.skip_ws();
    assert_eq!(tokenlizer.read(), Some('x'));
    tokenlizer.skip_ws();
    assert_eq!(tokenlizer.read(), Some('y'));
    // At end of input, skipping does nothing.
    tokenlizer.skip_ws();
    assert_eq!(tokenlizer.read(), None);
}

#[test]
fn test_skip_ws_only_plain_spaces() {
    // Only the literal space character is skipped, not tab or newline.
    let mut tokenlizer = Tokenlizer::new("{{", "}}", " \tx");
    tokenlizer.skip_ws();
    assert_eq!(tokenlizer.read(), Some('\t'));
}

#[test]
fn test_is_id_charset() {
    assert!(is_id('a'));
    assert!(is_id('z'));
    assert!(is_id('A'));
    assert!(is_id('Z'));
    assert!(is_id('0'));
    assert!(is_id('9'));
    assert!(is_id('_'));
    assert!(!is_id('!'));
    assert!(!is_id(' '));
    assert!(!is_id('{'));
    assert!(!is_id('-'));
}

#[test]
fn test_empty_input() {
    let mut tokenlizer = Tokenlizer::new("{{", "}}", "");
    assert_eq!(tokenlizer.read_token(), None);
    assert_eq!(tokenlizer.read_token(), None);
}

#[test]
fn test_unterminated_tag() {
    test_parser("{{abc", vec![LMustache, Id("abc".to_string())]);
}

#[test]
fn test_unrecognized_tag_content() {
    // `!` matches no marker and is no identifier character: the sequence
    // silently ends after the open delimiter.
    test_parser("{{!}}", vec![LMustache]);
}

#[test]
fn test_identifier_letters_then_digits() {
    test_parser("{{abc123}}", vec![LMustache, Id("abc123".to_string()), RMustache]);
}

#[test]
fn test_identifier_digits_then_letters() {
    test_parser("{{123abc}}", vec![LMustache, Id("123abc".to_string()), RMustache]);
}

#[test]
fn test_identifier_underscore() {
    test_parser("{{_x9}}", vec![LMustache, Id("_x9".to_string()), RMustache]);
}

#[test]
fn test_no_delimiter_in_plain_text() {
    test_parser("just plain text", vec![Text("just plain text".to_string())]);
}

#[test]
fn test_other_delimiter_pair() {
    let mut tokenlizer = Tokenlizer::new("<%", "%>", "a<% x %>b");
    let mut result: Vec<Token> = Vec::new();
    while let Some(t) = tokenlizer.read_token() {
        result.push(t);
    }
    assert_eq!(
        result,
        vec![
            Text("a".to_string()),
            LMustache,
            Id("x".to_string()),
            RMustache,
            Text("b".to_string()),
        ],
    );
}

#[test]
fn test_slash_and_unescape_markers() {
    test_parser(
        "{{&a}}{{/b}}",
        vec![
            LMustache,
            UnescapeTag,
            Id("a".to_string()),
            RMustache,
            LMustache,
            Slash,
            Id("b".to_string()),
            RMustache,
        ],
    );
}

#[test]
fn test_empty_tag() {
    test_parser("x{{}}y", vec![Text("x".to_string()), LMustache, RMustache, Text("y".to_string())]);
}

#[test]
fn test_checked_unterminated_tag() {
    let mut tokenlizer = Tokenlizer::new("{{", "}}", "{{abc");
    assert_eq!(tokenlizer.read_token_checked(), Ok(Some(Token::LMustache)));
    assert_eq!(tokenlizer.read_token_checked(), Ok(Some(Token::Id("abc".to_string()))));
    assert_eq!(tokenlizer.read_token_checked(), Err(LexError::UnterminatedTag));
}

#[test]
fn test_checked_unrecognized_tag_content() {
    let mut tokenlizer = Tokenlizer::new("{{", "}}", "{{!}}");
    assert_eq!(tokenlizer.read_token_checked(), Ok(Some(Token::LMustache)));
    assert_eq!(tokenlizer.read_token_checked(), Err(LexError::UnrecognizedTagContent));
}

#[test]
fn test_checked_ordinary_end() {
    let mut tokenlizer = Tokenlizer::new("{{", "}}", "ab");
    assert_eq!(tokenlizer.read_token_checked(), Ok(Some(Token::Text("ab".to_string()))));
    assert_eq!(tokenlizer.read_token_checked(), Ok(None));
}

#[test]
fn test_determinism() {
    let source = "abc{{^ # abc}}bcd{{x";
    let mut first = Tokenlizer::new("{{", "}}", source);
    let mut second = Tokenlizer::new("{{", "}}", source);
    let mut got_first: Vec<Token> = Vec::new();
    while let Some(t) = first.read_token() {
        got_first.push(t);
    }
    let mut got_second: Vec<Token> = Vec::new();
    while let Some(t) = second.read_token() {
        got_second.push(t);
    }
    assert_eq!(got_first, got_second);
}
