use json_ast::parse;
use json_ast::tokenize::tokenize;
use json_ast::types::{
    ArrayError, ArrayStatus, Node, Parsed, PropertyStatus, TokenType,
};

fn expect_tree(r: Parsed) -> Node {
    match r {
        Parsed::Success { tree } => tree,
        Parsed::Failure { .. } => panic!("expected a successful parse"),
    }
}

#[test]
fn object_trailing_comma_status() {
    let tree = expect_tree(parse("{\"a\": 1,}"));
    match tree {
        Node::Object { children, .. } => {
            assert_eq!(children.len(), 1);
            assert_eq!(children[0].status, PropertyStatus::TrailingComma);
            assert_eq!(children[0].key.raw, "a");
        },
        _ => panic!("expected an object"),
    }
}

#[test]
fn array_trailing_comma_status() {
    let tree = expect_tree(parse("[1,2,]"));
    match tree {
        Node::Array { status, children, .. } => {
            assert_eq!(children.len(), 2);
            match status {
                ArrayStatus::Invalid(errors) => {
                    assert_eq!(errors.len(), 1);
                    match &errors[0] {
                        ArrayError::TrailingComma(p) => {
                            // the closer `]` spans bytes 5..6
                            assert_eq!(p.index, 6);
                            assert_eq!(p.line, 1);
                            assert_eq!(p.column, 7);
                        },
                        _ => panic!("expected a trailing comma error"),
                    }
                },
                ArrayStatus::Valid => panic!("expected an invalid array"),
            }
        },
        _ => panic!("expected an array"),
    }
}

#[test]
fn object_missing_comma_status() {
    let tree = expect_tree(parse("{\"a\":1 \"b\":2}"));
    match tree {
        Node::Object { children, .. } => {
            assert_eq!(children.len(), 2);
            assert_eq!(children[0].status, PropertyStatus::MissingComma);
            assert_eq!(children[1].status, PropertyStatus::Valid);
            assert_eq!(children[0].key.raw, "a");
            assert_eq!(children[1].key.raw, "b");
        },
        _ => panic!("expected an object"),
    }
}

#[test]
fn array_missing_comma_status() {
    let tree = expect_tree(parse("[1 2]"));
    match tree {
        Node::Array { status, children, .. } => {
            assert_eq!(children.len(), 2);
            match status {
                ArrayStatus::Invalid(errors) => {
                    assert_eq!(errors.len(), 1);
                    match &errors[0] {
                        ArrayError::MissingComma(p) => {
                            // just past the `1`, which spans bytes 1..2
                            assert_eq!(p.index, 2);
                        },
                        _ => panic!("expected a missing comma error"),
                    }
                },
                ArrayStatus::Valid => panic!("expected an invalid array"),
            }
        },
        _ => panic!("expected an array"),
    }
}

#[test]
fn empty_object() {
    let tree = expect_tree(parse("{}"));
    match tree {
        Node::Object { children, start, end } => {
            assert_eq!(children.len(), 0);
            assert_eq!(start.index, 0);
            assert_eq!(end.index, 2);
        },
        _ => panic!("expected an object"),
    }
}

#[test]
fn empty_array() {
    let tree = expect_tree(parse("[]"));
    match tree {
        Node::Array { status, children, .. } => {
            assert_eq!(children.len(), 0);
            assert!(matches!(status, ArrayStatus::Valid));
        },
        _ => panic!("expected an array"),
    }
}

fn single_number_token(text: &str) {
    let tokens = tokenize(text).expect("the text should tokenize");
    assert_eq!(tokens.len(), 1);
    assert!(matches!(tokens[0].kind, TokenType::Number));
    assert_eq!(tokens[0].value.as_deref(), Some(text));
}

#[test]
fn number_grammar_accepts() {
    single_number_token("0");
    single_number_token("-0");
    single_number_token("0.5");
    single_number_token("1e10");
    single_number_token("1E-10");
    single_number_token("1e+1");
}

#[test]
fn number_grammar_leading_zero_splits() {
    let tokens = tokenize("01").expect("the text should tokenize");
    assert_eq!(tokens.len(), 2);
    assert_eq!(tokens[0].value.as_deref(), Some("0"));
    assert_eq!(tokens[1].value.as_deref(), Some("1"));
}

#[test]
fn number_grammar_bare_minus_fails() {
    assert!(tokenize("-").is_none());
}

fn single_string_token(text: &str, expected_value: &str) {
    let tokens = tokenize(text).expect("the text should tokenize");
    assert_eq!(tokens.len(), 1);
    assert!(matches!(tokens[0].kind, TokenType::String));
    assert_eq!(tokens[0].value.as_deref(), Some(expected_value));
}

#[test]
fn string_escapes_kept_as_written() {
    single_string_token("\"\\n\"", "\\n");
    single_string_token("\"\\u0041\"", "\\u0041");
    single_string_token("\"\\\\\"", "\\\\");
    single_string_token("\"\\/\"", "\\/");
}

#[test]
fn string_short_hex_escape_fails() {
    assert!(tokenize("\"\\u12\"").is_none());
}

#[test]
fn string_multibyte_content_passes_through() {
    let tokens = tokenize("\"𠮷\"").expect("the text should tokenize");
    assert_eq!(tokens.len(), 1);
    assert!(matches!(tokens[0].kind, TokenType::String));
    assert_eq!(tokens[0].value.as_deref(), Some("𠮷"));
    // the character is four bytes; the token spans bytes 0..6
    assert_eq!(tokens[0].start.index, 0);
    assert_eq!(tokens[0].end.index, 6);
}

#[test]
fn empty_input_fails_with_no_tree() {
    match parse("") {
        Parsed::Failure { tokens, tree, errors } => {
            assert_eq!(tokens.len(), 0);
            assert!(tree.is_none());
            assert_eq!(errors.len(), 0);
        },
        Parsed::Success { .. } => panic!("expected a failure"),
    }
}

#[test]
fn whitespace_only_input_fails_with_no_tree() {
    match parse("  \t\r\n  ") {
        Parsed::Failure { tokens, tree, .. } => {
            assert_eq!(tokens.len(), 0);
            assert!(tree.is_none());
        },
        Parsed::Success { .. } => panic!("expected a failure"),
    }
}

#[test]
fn deep_nesting_builds_nested_arrays() {
    let depth = 19;
    let mut text = String::new();
    for _ in 0..depth {
        text.push('[');
    }
    text.push('1');
    for _ in 0..depth {
        text.push(']');
    }
    let mut node = expect_tree(parse(&text));
    for _ in 0..depth {
        node = match node {
            Node::Array { mut children, status, .. } => {
                assert!(matches!(status, ArrayStatus::Valid));
                assert_eq!(children.len(), 1);
                children.remove(0)
            },
            _ => panic!("expected an array"),
        };
    }
    match node {
        Node::Number { raw, .. } => assert_eq!(raw, "1"),
        _ => panic!("expected a number at the innermost level"),
    }
}
