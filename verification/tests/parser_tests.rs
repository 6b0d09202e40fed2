use json_ast::parse;
use json_ast::parse::parse_value;
use json_ast::tokenize::tokenize;
use json_ast::types::{Node, Parsed, PropertyStatus, TokenType};

#[test]
fn lexical_failure_aborts_whole_parse() {
    // `@` matches no lexical rule, so no token sequence is usable
    match parse("[1, @]") {
        Parsed::Failure { tokens, tree, errors } => {
            assert_eq!(tokens.len(), 0);
            assert!(tree.is_none());
            assert_eq!(errors.len(), 0);
        },
        Parsed::Success { .. } => panic!("expected a failure"),
    }
}

#[test]
fn key_without_colon_is_unrecoverable() {
    assert!(matches!(parse("{\"a\" 1}"), Parsed::Failure { .. }));
}

#[test]
fn unclosed_object_is_unrecoverable() {
    assert!(matches!(parse("{\"a\": 1"), Parsed::Failure { .. }));
}

#[test]
fn unexpected_colon_in_array_is_unrecoverable() {
    assert!(matches!(parse("[1 : 2]"), Parsed::Failure { .. }));
}

#[test]
fn closer_at_top_level_is_failure_with_tokens() {
    match parse("}") {
        Parsed::Failure { tokens, tree, .. } => {
            assert_eq!(tokens.len(), 1);
            assert!(matches!(tokens[0].kind, TokenType::RightBrace));
            assert!(tree.is_none());
        },
        Parsed::Success { .. } => panic!("expected a failure"),
    }
}

#[test]
fn tokens_after_first_value_are_ignored() {
    match parse("[] []") {
        Parsed::Success { tree } => match tree {
            Node::Array { children, .. } => assert_eq!(children.len(), 0),
            _ => panic!("expected an array"),
        },
        Parsed::Failure { .. } => panic!("expected a success"),
    }
}

#[test]
fn reparse_yields_identical_positions() {
    let text = "{\"k\": [1, {\"n\": null},]}";
    let first = parse(text);
    let second = parse(text);
    match (first, second) {
        (Parsed::Success { tree: t1 }, Parsed::Success { tree: t2 }) => {
            assert_eq!(t1.end(), t2.end());
            match (t1, t2) {
                (
                    Node::Object { children: c1, start: s1, end: e1 },
                    Node::Object { children: c2, start: s2, end: e2 },
                ) => {
                    assert_eq!(s1, s2);
                    assert_eq!(e1, e2);
                    assert_eq!(c1.len(), c2.len());
                    assert_eq!(c1[0].status, c2[0].status);
                    assert_eq!(c1[0].key.raw, c2[0].key.raw);
                },
                _ => panic!("expected objects"),
            }
        },
        _ => panic!("expected two successful parses"),
    }
}

#[test]
fn node_end_returns_span_end() {
    let tree = match parse("[1, 2]") {
        Parsed::Success { tree } => tree,
        _ => panic!("expected a success"),
    };
    let end = tree.end();
    assert_eq!(end.index, 6);
    assert_eq!(end.line, 1);
    assert_eq!(end.column, 7);
}

#[test]
fn parse_value_over_tokenized_input() {
    let tokens = tokenize("true").expect("the text should tokenize");
    match parse_value(&tokens) {
        Parsed::Success { tree } => match tree {
            Node::Boolean { raw, start, end } => {
                assert_eq!(raw, "true");
                assert_eq!(start.index, 0);
                assert_eq!(end.index, 4);
            },
            _ => panic!("expected a boolean"),
        },
        Parsed::Failure { .. } => panic!("expected a success"),
    }
}

#[test]
fn line_and_column_tracking() {
    let tree = match parse("\n  [42]") {
        Parsed::Success { tree } => tree,
        _ => panic!("expected a success"),
    };
    match tree {
        Node::Array { children, start, end, .. } => {
            assert_eq!(start.line, 2);
            assert_eq!(start.column, 3);
            assert_eq!(start.index, 3);
            assert_eq!(end.line, 2);
            assert_eq!(end.index, 7);
            match &children[0] {
                Node::Number { raw, start, .. } => {
                    assert_eq!(raw, "42");
                    assert_eq!(start.line, 2);
                    assert_eq!(start.column, 4);
                },
                _ => panic!("expected a number"),
            }
        },
        _ => panic!("expected an array"),
    }
}

#[test]
fn carriage_return_newline_consumed_together() {
    let tree = match parse("\r\n{}") {
        Parsed::Success { tree } => tree,
        _ => panic!("expected a success"),
    };
    match tree {
        Node::Object { start, .. } => {
            assert_eq!(start.line, 2);
            assert_eq!(start.column, 2);
            assert_eq!(start.index, 2);
        },
        _ => panic!("expected an object"),
    }
}

#[test]
fn key_escapes_kept_as_written() {
    let tree = match parse("{\"a\\u0041\": 1}") {
        Parsed::Success { tree } => tree,
        _ => panic!("expected a success"),
    };
    match tree {
        Node::Object { children, .. } => {
            assert_eq!(children[0].key.raw, "a\\u0041");
            assert_eq!(children[0].status, PropertyStatus::Valid);
        },
        _ => panic!("expected an object"),
    }
}

#[test]
fn property_spans_key_to_value() {
    let tree = match parse("{\"a\": [1]}") {
        Parsed::Success { tree } => tree,
        _ => panic!("expected a success"),
    };
    match tree {
        Node::Object { children, start, end } => {
            assert_eq!(start.index, 0);
            assert_eq!(end.index, 10);
            assert_eq!(children[0].start.index, 1);
            assert_eq!(children[0].end.index, 9);
        },
        _ => panic!("expected an object"),
    }
}

#[test]
fn keyword_tokens() {
    let tokens = tokenize("true false null").expect("the text should tokenize");
    assert_eq!(tokens.len(), 3);
    assert!(matches!(tokens[0].kind, TokenType::True));
    assert!(matches!(tokens[1].kind, TokenType::False));
    assert!(matches!(tokens[2].kind, TokenType::Null));
    assert_eq!(tokens[0].value.as_deref(), Some("true"));
    assert_eq!(tokens[1].value.as_deref(), Some("false"));
    assert_eq!(tokens[2].value.as_deref(), Some("null"));
}

#[test]
fn punctuator_tokens_carry_no_value() {
    let tokens = tokenize("{}[]:,").expect("the text should tokenize");
    assert_eq!(tokens.len(), 6);
    assert!(matches!(tokens[0].kind, TokenType::LeftBrace));
    assert!(matches!(tokens[1].kind, TokenType::RightBrace));
    assert!(matches!(tokens[2].kind, TokenType::LeftBracket));
    assert!(matches!(tokens[3].kind, TokenType::RightBracket));
    assert!(matches!(tokens[4].kind, TokenType::Colon));
    assert!(matches!(tokens[5].kind, TokenType::Comma));
    for t in &tokens {
        assert!(t.value.is_none());
        assert_eq!(t.end.index, t.start.index + 1);
    }
}
