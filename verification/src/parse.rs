//! The parser: consumes the token sequence through a forward-only position
//! and builds the syntax tree, tolerating and recording trailing and missing
//! commas while aborting on every other grammar violation.
//!
//! `spec_parse_value` and its companions are the mathematical description of
//! the grammar, including the two recoverable defects; the executable
//! functions are proved to return exactly their results.

use vstd::prelude::*;

use crate::types::{
    ArrayError, ArrayErrorModel, ArrayStatus, ArrayStatusModel, Identifier, IdentifierModel, Node,
    NodeModel, Parsed, ParsedModel, PosModel, Property, PropertyModel, PropertyStatus, Token,
    TokenModel, TokenType, model_end, node_model, nodes_model, parsed_model, property_model,
    props_model, lemma_nodes_model, lemma_props_model,
};

verus! {

/// Token kinds that form a literal leaf node.
pub open spec fn is_literal_kind(k: TokenType) -> bool {
    ||| k is String
    ||| k is Number
    ||| k is True
    ||| k is False
    ||| k is Null
}

/// Token kinds that can begin a value.
pub open spec fn is_value_start(k: TokenType) -> bool {
    k is LeftBrace || k is LeftBracket || is_literal_kind(k)
}

/// Tokens a parser input must satisfy: every literal token carries a value.
/// The tokenizer only produces such sequences.
pub open spec fn wf_tokens(toks: Seq<TokenModel>) -> bool {
    forall|k: int|
        0 <= k < toks.len() ==> (is_literal_kind(#[trigger] toks[k].kind) ==> toks[k].value
            is Some)
}

/// The leaf node built from one literal token.
pub open spec fn spec_literal_node(t: TokenModel) -> NodeModel
    recommends
        is_literal_kind(t.kind),
        t.value is Some,
{
    let raw = t.value->Some_0;
    match t.kind {
        TokenType::String => NodeModel::String { raw, start: t.start, end: t.end },
        TokenType::Number => NodeModel::Number { raw, start: t.start, end: t.end },
        TokenType::True => NodeModel::Boolean { raw, start: t.start, end: t.end },
        TokenType::False => NodeModel::Boolean { raw, start: t.start, end: t.end },
        _ => NodeModel::Null { raw, start: t.start, end: t.end },
    }
}

/// A property with its recovery status rewritten.
pub open spec fn with_status(p: PropertyModel, status: PropertyStatus) -> PropertyModel {
    PropertyModel { status, key: p.key, value: p.value, start: p.start, end: p.end }
}

/// The position a sub-parse ended at, kept inside `(pos, len]` so that the
/// recursion below is well-founded. A successful sub-parse always ends past
/// where it began and within the tokens (`lemma_parse_value_bounds`), so the
/// fallback never describes a reachable parse.
pub open spec fn next_pos(q: int, pos: int, len: int) -> int {
    if pos < q <= len {
        q
    } else {
        len
    }
}

/// Parses the value starting at `pos`: an object, an array, or a literal.
/// Any other token — or no token — is a failure.
pub open spec fn spec_parse_value(toks: Seq<TokenModel>, pos: int) -> Option<(NodeModel, int)>
    decreases toks.len() - pos, 1int,
{
    if !(0 <= pos < toks.len()) {
        None
    } else if toks[pos].kind is LeftBrace {
        spec_parse_object(toks, pos)
    } else if toks[pos].kind is LeftBracket {
        spec_parse_array(toks, pos)
    } else if is_literal_kind(toks[pos].kind) {
        Some((spec_literal_node(toks[pos]), pos + 1))
    } else {
        None
    }
}

/// Parses the property starting at `pos`: a string key, a colon, then a
/// value. The property spans from the key's start to its value's end.
pub open spec fn spec_parse_property(toks: Seq<TokenModel>, pos: int) -> Option<
    (PropertyModel, int),
>
    decreases toks.len() - pos, 0int,
{
    if !(0 <= pos < toks.len() && toks[pos].kind is String) {
        None
    } else if !(pos + 1 < toks.len() && toks[pos + 1].kind is Colon) {
        None
    } else {
        match spec_parse_value(toks, pos + 2) {
            Some((v, q)) => Some(
                (
                    PropertyModel {
                        status: PropertyStatus::Valid,
                        key: IdentifierModel {
                            raw: toks[pos].value->Some_0,
                            start: toks[pos].start,
                            end: toks[pos].end,
                        },
                        value: v,
                        start: toks[pos].start,
                        end: model_end(v),
                    },
                    q,
                ),
            ),
            None => None,
        }
    }
}

/// Parses the object whose opening brace stands at `pos`.
pub open spec fn spec_parse_object(toks: Seq<TokenModel>, pos: int) -> Option<(NodeModel, int)>
    decreases toks.len() - pos, 0int,
{
    if !(0 <= pos < toks.len() && toks[pos].kind is LeftBrace) {
        None
    } else if pos + 1 < toks.len() && toks[pos + 1].kind is RightBrace {
        Some(
            (
                NodeModel::Object {
                    children: Seq::empty(),
                    start: toks[pos].start,
                    end: toks[pos + 1].end,
                },
                pos + 2,
            ),
        )
    } else {
        match spec_parse_property(toks, pos + 1) {
            Some((p, q)) => match spec_obj_rest(toks, next_pos(q, pos + 1, toks.len() as int), p) {
                Some((props, e)) => Some(
                    (
                        NodeModel::Object {
                            children: props,
                            start: toks[pos].start,
                            end: toks[e - 1].end,
                        },
                        e,
                    ),
                ),
                None => None,
            },
            None => None,
        }
    }
}

/// Parses the rest of an object after a property has been parsed but not yet
/// committed. `last` is that property; a later token may still rewrite its
/// status. Returns the committed properties from `last` onward and the
/// position just past the closing brace.
///
/// A comma whose next token is the closing brace marks `last` with a
/// trailing comma; a key directly after `last` marks it with a missing comma
/// and the next property is parsed without a separator; anything that is
/// neither comma, closing brace nor key is a failure.
pub open spec fn spec_obj_rest(toks: Seq<TokenModel>, pos: int, last: PropertyModel) -> Option<
    (Seq<PropertyModel>, int),
>
    decreases toks.len() - pos, 2int,
{
    if !(0 <= pos < toks.len()) {
        None
    } else if toks[pos].kind is Comma {
        if pos + 1 < toks.len() && toks[pos + 1].kind is RightBrace {
            Some((seq![with_status(last, PropertyStatus::TrailingComma)], pos + 2))
        } else {
            match spec_parse_property(toks, pos + 1) {
                Some((p, q)) => match spec_obj_rest(
                    toks,
                    next_pos(q, pos, toks.len() as int),
                    p,
                ) {
                    Some((props, e)) => Some((seq![last] + props, e)),
                    None => None,
                },
                None => None,
            }
        }
    } else if toks[pos].kind is RightBrace {
        Some((seq![last], pos + 1))
    } else if toks[pos].kind is String {
        match spec_parse_property(toks, pos) {
            Some((p, q)) => match spec_obj_rest(toks, next_pos(q, pos, toks.len() as int), p) {
                Some((props, e)) => Some(
                    (seq![with_status(last, PropertyStatus::MissingComma)] + props, e),
                ),
                None => None,
            },
            None => None,
        }
    } else {
        None
    }
}

/// Parses the array whose opening bracket stands at `pos`.
pub open spec fn spec_parse_array(toks: Seq<TokenModel>, pos: int) -> Option<(NodeModel, int)>
    decreases toks.len() - pos, 0int,
{
    if !(0 <= pos < toks.len() && toks[pos].kind is LeftBracket) {
        None
    } else if pos + 1 < toks.len() && toks[pos + 1].kind is RightBracket {
        Some(
            (
                NodeModel::Array {
                    status: ArrayStatusModel::Valid,
                    children: Seq::empty(),
                    start: toks[pos].start,
                    end: toks[pos + 1].end,
                },
                pos + 2,
            ),
        )
    } else {
        match spec_parse_value(toks, pos + 1) {
            Some((v, q)) => match spec_arr_rest(
                toks,
                next_pos(q, pos, toks.len() as int),
                model_end(v),
            ) {
                Some((vs, errs, e)) => Some(
                    (
                        NodeModel::Array {
                            status: if errs.len() == 0 {
                                ArrayStatusModel::Valid
                            } else {
                                ArrayStatusModel::Invalid(errs)
                            },
                            children: seq![v] + vs,
                            start: toks[pos].start,
                            end: toks[e - 1].end,
                        },
                        e,
                    ),
                ),
                None => None,
            },
            None => None,
        }
    }
}

/// Parses the rest of an array after an element whose end position is
/// `last_end`. Returns the elements from the next one onward, the defects
/// recorded from here on, and the position just past the closing bracket.
///
/// A comma followed by the closing bracket records a trailing comma at the
/// closer's end; a value directly after a value records a missing comma at
/// `last_end` and the next element is parsed without a separator; an
/// unexpected closing brace or colon is a failure.
pub open spec fn spec_arr_rest(toks: Seq<TokenModel>, pos: int, last_end: PosModel) -> Option<
    (Seq<NodeModel>, Seq<ArrayErrorModel>, int),
>
    decreases toks.len() - pos, 2int,
{
    if !(0 <= pos < toks.len()) {
        None
    } else if toks[pos].kind is RightBracket {
        Some((Seq::empty(), Seq::empty(), pos + 1))
    } else if toks[pos].kind is Comma {
        if pos + 1 < toks.len() && toks[pos + 1].kind is RightBracket {
            Some(
                (
                    Seq::empty(),
                    seq![ArrayErrorModel::TrailingComma(toks[pos + 1].end)],
                    pos + 2,
                ),
            )
        } else {
            match spec_parse_value(toks, pos + 1) {
                Some((v, q)) => match spec_arr_rest(
                    toks,
                    next_pos(q, pos, toks.len() as int),
                    model_end(v),
                ) {
                    Some((vs, errs, e)) => Some((seq![v] + vs, errs, e)),
                    None => None,
                },
                None => None,
            }
        }
    } else if is_value_start(toks[pos].kind) {
        match spec_parse_value(toks, pos) {
            Some((v, q)) => match spec_arr_rest(
                toks,
                next_pos(q, pos, toks.len() as int),
                model_end(v),
            ) {
                Some((vs, errs, e)) => Some(
                    (seq![v] + vs, seq![ArrayErrorModel::MissingComma(last_end)] + errs, e),
                ),
                None => None,
            },
            None => None,
        }
    } else {
        None
    }
}

/// A successful value parse ends past where it began and within the tokens.
pub proof fn lemma_parse_value_bounds(toks: Seq<TokenModel>, pos: int)
    ensures
        spec_parse_value(toks, pos) matches Some((v, q)) ==> pos < q <= toks.len(),
    decreases toks.len() - pos, 1int,
{
    if 0 <= pos < toks.len() {
        if toks[pos].kind is LeftBrace {
            lemma_parse_object_bounds(toks, pos);
        } else if toks[pos].kind is LeftBracket {
            lemma_parse_array_bounds(toks, pos);
        }
    }
}

/// A successful property parse ends past where it began and within the
/// tokens.
pub proof fn lemma_parse_property_bounds(toks: Seq<TokenModel>, pos: int)
    ensures
        spec_parse_property(toks, pos) matches Some((p, q)) ==> pos + 2 < q <= toks.len(),
    decreases toks.len() - pos, 0int,
{
    if 0 <= pos < toks.len() && toks[pos].kind is String && pos + 1 < toks.len() && toks[pos
        + 1].kind is Colon {
        lemma_parse_value_bounds(toks, pos + 2);
    }
}

/// A successful object parse ends past where it began and within the tokens.
pub proof fn lemma_parse_object_bounds(toks: Seq<TokenModel>, pos: int)
    ensures
        spec_parse_object(toks, pos) matches Some((n, q)) ==> pos + 1 < q <= toks.len(),
    decreases toks.len() - pos, 0int,
{
    if 0 <= pos < toks.len() && toks[pos].kind is LeftBrace {
        if pos + 1 < toks.len() && toks[pos + 1].kind is RightBrace {
        } else {
            lemma_parse_property_bounds(toks, pos + 1);
            if let Some((p, q)) = spec_parse_property(toks, pos + 1) {
                lemma_obj_rest_bounds(toks, next_pos(q, pos + 1, toks.len() as int), p);
            }
        }
    }
}

/// A successful object continuation ends past where it began and within the
/// tokens.
pub proof fn lemma_obj_rest_bounds(toks: Seq<TokenModel>, pos: int, last: PropertyModel)
    ensures
        spec_obj_rest(toks, pos, last) matches Some((props, e)) ==> pos < e <= toks.len(),
    decreases toks.len() - pos, 2int,
{
    if 0 <= pos < toks.len() {
        if toks[pos].kind is Comma {
            if pos + 1 < toks.len() && toks[pos + 1].kind is RightBrace {
            } else {
                lemma_parse_property_bounds(toks, pos + 1);
                if let Some((p, q)) = spec_parse_property(toks, pos + 1) {
                    lemma_obj_rest_bounds(toks, next_pos(q, pos, toks.len() as int), p);
                }
            }
        } else if toks[pos].kind is RightBrace {
        } else if toks[pos].kind is String {
            lemma_parse_property_bounds(toks, pos);
            if let Some((p, q)) = spec_parse_property(toks, pos) {
                lemma_obj_rest_bounds(toks, next_pos(q, pos, toks.len() as int), p);
            }
        }
    }
}

/// A successful array parse ends past where it began and within the tokens.
pub proof fn lemma_parse_array_bounds(toks: Seq<TokenModel>, pos: int)
    ensures
        spec_parse_array(toks, pos) matches Some((n, q)) ==> pos + 1 < q <= toks.len(),
    decreases toks.len() - pos, 0int,
{
    if 0 <= pos < toks.len() && toks[pos].kind is LeftBracket {
        if pos + 1 < toks.len() && toks[pos + 1].kind is RightBracket {
        } else {
            lemma_parse_value_bounds(toks, pos + 1);
            if let Some((v, q)) = spec_parse_value(toks, pos + 1) {
                lemma_arr_rest_bounds(toks, next_pos(q, pos, toks.len() as int), model_end(v));
            }
        }
    }
}

/// A successful array continuation ends past where it began and within the
/// tokens.
pub proof fn lemma_arr_rest_bounds(toks: Seq<TokenModel>, pos: int, last_end: PosModel)
    ensures
        spec_arr_rest(toks, pos, last_end) matches Some((vs, errs, e)) ==> pos < e <= toks.len(),
    decreases toks.len() - pos, 2int,
{
    if 0 <= pos < toks.len() {
        if toks[pos].kind is RightBracket {
        } else if toks[pos].kind is Comma {
            if pos + 1 < toks.len() && toks[pos + 1].kind is RightBracket {
            } else {
                lemma_parse_value_bounds(toks, pos + 1);
                if let Some((v, q)) = spec_parse_value(toks, pos + 1) {
                    lemma_arr_rest_bounds(toks, next_pos(q, pos, toks.len() as int), model_end(v));
                }
            }
        } else if is_value_start(toks[pos].kind) {
            lemma_parse_value_bounds(toks, pos);
            if let Some((v, q)) = spec_parse_value(toks, pos) {
                lemma_arr_rest_bounds(toks, next_pos(q, pos, toks.len() as int), model_end(v));
            }
        }
    }
}

/// The outcome of parsing a whole token sequence: the tree of the first
/// value when one parses, else a failure carrying the tokens, no tree, and
/// no top-level errors (recoverable defects live inside the tree).
pub open spec fn spec_parsed(toks: Seq<TokenModel>) -> ParsedModel {
    match spec_parse_value(toks, 0) {
        Some((v, _)) => ParsedModel::Success { tree: v },
        None => ParsedModel::Failure { tokens: toks, tree: None, errors: Seq::empty() },
    }
}

/// The tokenizer only produces well-formed token sequences: every literal
/// token it emits carries a value.
pub proof fn lemma_tokenize_wf(bytes: Seq<u8>, i: int, line: int, col: int)
    ensures
        crate::tokenize::spec_tokenize_from(bytes, i, line, col) matches Some(ts) ==> wf_tokens(
            ts,
        ),
    decreases bytes.len() - i,
{
    if i >= bytes.len() || i < 0 {
        assert(wf_tokens(Seq::empty()));
    } else if crate::tokenize::spec_whitespace(bytes, i, line, col) is Some {
        let p = crate::tokenize::spec_whitespace(bytes, i, line, col)->Some_0;
        lemma_tokenize_wf(bytes, p.index, p.line, p.column);
    } else if crate::tokenize::spec_token_at(bytes, i, line, col) is Some {
        let t = crate::tokenize::spec_token_at(bytes, i, line, col)->Some_0;
        crate::tokenize::lemma_token_at_bounds(bytes, i, line, col);
        lemma_tokenize_wf(bytes, t.end.index, t.end.line, t.end.column);
        if let Some(rest) = crate::tokenize::spec_tokenize_from(
            bytes,
            t.end.index,
            t.end.line,
            t.end.column,
        ) {
            let ts = seq![t] + rest;
            assert(is_literal_kind(t.kind) ==> t.value is Some);
            assert(wf_tokens(ts)) by {
                assert forall|k: int|
                    0 <= k < ts.len() && is_literal_kind(#[trigger] ts[k].kind) implies ts[k].value
                    is Some by {
                    if k == 0 {
                    } else {
                        assert(ts[k] == rest[k - 1]);
                    }
                }
            }
        }
    }
}

/// The decoded value a literal token carries.
fn unwrap_value(token: &Token) -> (r: String)
    requires
        token.deep_view().value is Some,
    ensures
        r@ == token.deep_view().value->Some_0,
{
    match &token.value {
        Some(s) => s.clone(),
        None => unreached(),
    }
}

/// A property with its recovery status rewritten, keeping everything else.
fn set_property_status(p: Property, status: PropertyStatus) -> (r: Property)
    ensures
        property_model(r) == with_status(property_model(p), status),
{
    Property { status, key: p.key, value: p.value, start: p.start, end: p.end }
}

/// Consumes the literal token at `pos` and wraps it in its leaf node.
fn parse_literal(tokens: &Vec<Token>, pos: usize) -> (r: Option<(Node, usize)>)
    requires
        wf_tokens(tokens.deep_view()),
        pos < tokens.len(),
    ensures
        match r {
            Some((n, q)) => {
                &&& is_literal_kind(tokens.deep_view()[pos as int].kind)
                &&& node_model(n) == spec_literal_node(tokens.deep_view()[pos as int])
                &&& q == pos + 1
            },
            None => !is_literal_kind(tokens.deep_view()[pos as int].kind),
        },
{
    let ghost dv = tokens.deep_view();
    let token = &tokens[pos];
    proof {
        assert(dv[pos as int] == tokens@[pos as int].deep_view());
    }
    match token.kind {
        TokenType::String => {
            proof {
                assert(is_literal_kind(dv[pos as int].kind));
            }
            let raw = unwrap_value(token);
            Some((Node::String { raw, start: token.start, end: token.end }, pos + 1))
        },
        TokenType::Number => {
            proof {
                assert(is_literal_kind(dv[pos as int].kind));
            }
            let raw = unwrap_value(token);
            Some((Node::Number { raw, start: token.start, end: token.end }, pos + 1))
        },
        TokenType::True => {
            proof {
                assert(is_literal_kind(dv[pos as int].kind));
            }
            let raw = unwrap_value(token);
            Some((Node::Boolean { raw, start: token.start, end: token.end }, pos + 1))
        },
        TokenType::False => {
            proof {
                assert(is_literal_kind(dv[pos as int].kind));
            }
            let raw = unwrap_value(token);
            Some((Node::Boolean { raw, start: token.start, end: token.end }, pos + 1))
        },
        TokenType::Null => {
            proof {
                assert(is_literal_kind(dv[pos as int].kind));
            }
            let raw = unwrap_value(token);
            Some((Node::Null { raw, start: token.start, end: token.end }, pos + 1))
        },
        _ => None,
    }
}

/// Dispatches on the token at `pos`: `{` opens an object, `[` opens an
/// array, a literal becomes a leaf; a closer or missing token is no value.
fn inner_parse_value(tokens: &Vec<Token>, pos: usize) -> (r: Option<(Node, usize)>)
    requires
        wf_tokens(tokens.deep_view()),
        pos <= tokens.len(),
    ensures
        match r {
            Some((n, q)) => {
                &&& spec_parse_value(tokens.deep_view(), pos as int) == Some(
                    (node_model(n), q as int),
                )
                &&& pos < q <= tokens.len()
            },
            None => spec_parse_value(tokens.deep_view(), pos as int) is None,
        },
    decreases tokens.len() - pos, 1int,
{
    if pos >= tokens.len() {
        return None;
    }
    let k = tokens[pos].kind;
    if k == TokenType::LeftBrace {
        parse_object(tokens, pos)
    } else if k == TokenType::LeftBracket {
        parse_array(tokens, pos)
    } else if k == TokenType::String || k == TokenType::Number || k == TokenType::True || k
        == TokenType::False || k == TokenType::Null {
        parse_literal(tokens, pos)
    } else {
        None
    }
}

/// Parses the property at `pos`: a string key, a colon, then a value.
fn parse_property(tokens: &Vec<Token>, pos: usize) -> (r: Option<(Property, usize)>)
    requires
        wf_tokens(tokens.deep_view()),
        pos <= tokens.len(),
    ensures
        match r {
            Some((p, q)) => {
                &&& spec_parse_property(tokens.deep_view(), pos as int) == Some(
                    (property_model(p), q as int),
                )
                &&& pos + 2 < q <= tokens.len()
            },
            None => spec_parse_property(tokens.deep_view(), pos as int) is None,
        },
    decreases tokens.len() - pos, 0int,
{
    let ghost dv = tokens.deep_view();
    if pos >= tokens.len() || !(tokens[pos].kind == TokenType::String) {
        return None;
    }
    if !(pos + 1 < tokens.len() && tokens[pos + 1].kind == TokenType::Colon) {
        return None;
    }
    let key_token = &tokens[pos];
    proof {
        assert(is_literal_kind(dv[pos as int].kind));
    }
    let raw = unwrap_value(key_token);
    let key = Identifier { raw, start: key_token.start, end: key_token.end };
    let start = key_token.start;
    match inner_parse_value(tokens, pos + 2) {
        Some((value, q)) => {
            let end = value.end();
            let prop = Property { status: PropertyStatus::Valid, key, value, start, end };
            Some((prop, q))
        },
        None => None,
    }
}

/// Parses the object whose opening brace stands at `pos`, running the
/// object's state machine over the following tokens.
#[verifier::loop_isolation(false)]
fn parse_object(tokens: &Vec<Token>, pos: usize) -> (r: Option<(Node, usize)>)
    requires
        wf_tokens(tokens.deep_view()),
        pos < tokens.len(),
        tokens.deep_view()[pos as int].kind is LeftBrace,
    ensures
        match r {
            Some((n, q)) => {
                &&& spec_parse_object(tokens.deep_view(), pos as int) == Some(
                    (node_model(n), q as int),
                )
                &&& pos + 1 < q <= tokens.len()
            },
            None => spec_parse_object(tokens.deep_view(), pos as int) is None,
        },
    decreases tokens.len() - pos, 0int,
{
    let ghost dv = tokens.deep_view();
    let n_toks = tokens.len();
    let start = tokens[pos].start;
    if pos + 1 < n_toks && tokens[pos + 1].kind == TokenType::RightBrace {
        let node = Node::Object { children: Vec::new(), start, end: tokens[pos + 1].end };
        proof {
            assert(props_model(Seq::empty()) =~= Seq::<PropertyModel>::empty());
            assert(node_model(node) == spec_parse_object(dv, pos as int)->Some_0.0);
        }
        return Some((node, pos + 2));
    }
    match parse_property(tokens, pos + 1) {
        None => None,
        Some((p1, q1)) => {
            proof {
                assert(next_pos(q1 as int, pos as int + 1, n_toks as int) == q1 as int);
            }
            let ghost first_rest = spec_obj_rest(dv, q1 as int, property_model(p1));
            let mut children: Vec<Property> = Vec::new();
            let mut last = p1;
            let mut cur = q1;
            proof {
                if let Some((props, e)) = first_rest {
                    assert(props_model(children@) =~= Seq::<PropertyModel>::empty());
                    assert(props_model(children@) + props =~= props);
                }
            }
            loop
                invariant
                    wf_tokens(dv),
                    dv == tokens.deep_view(),
                    n_toks == tokens.len(),
                    pos as int + 1 < cur as int <= n_toks as int,
                    match spec_obj_rest(dv, cur as int, property_model(last)) {
                        Some((props, e)) => first_rest == Some(
                            (props_model(children@) + props, e),
                        ),
                        None => first_rest is None,
                    },
                    spec_parse_object(dv, pos as int) == (match first_rest {
                        Some((props, e)) => Some(
                            (
                                NodeModel::Object {
                                    children: props,
                                    start: dv[pos as int].start,
                                    end: dv[e - 1].end,
                                },
                                e,
                            ),
                        ),
                        None => None::<(NodeModel, int)>,
                    }),
                decreases n_toks - cur,
            {
                if cur >= n_toks {
                    return None;
                }
                let k = tokens[cur].kind;
                if k == TokenType::Comma {
                    if cur + 1 < n_toks && tokens[cur + 1].kind == TokenType::RightBrace {
                        let ghost prev = children@;
                        let repaired = set_property_status(last, PropertyStatus::TrailingComma);
                        children.push(repaired);
                        proof {
                            lemma_props_model(prev);
                            lemma_props_model(children@);
                            assert(props_model(children@) =~= props_model(prev) + seq![
                                with_status(
                                    property_model(last),
                                    PropertyStatus::TrailingComma,
                                ),
                            ]);
                        }
                        let node = Node::Object { children, start, end: tokens[cur + 1].end };
                        return Some((node, cur + 2));
                    } else {
                        match parse_property(tokens, cur + 1) {
                            None => {
                                return None;
                            },
                            Some((p2, q2)) => {
                                proof {
                                    assert(next_pos(q2 as int, cur as int, n_toks as int)
                                        == q2 as int);
                                }
                                let ghost prev = children@;
                                let ghost last_model = property_model(last);
                                children.push(last);
                                proof {
                                    lemma_props_model(prev);
                                    lemma_props_model(children@);
                                    assert(props_model(children@) =~= props_model(prev) + seq![
                                        last_model,
                                    ]);
                                    if let Some((props2, e)) = spec_obj_rest(
                                        dv,
                                        q2 as int,
                                        property_model(p2),
                                    ) {
                                        assert((props_model(prev) + seq![last_model]) + props2
                                            =~= props_model(prev) + (seq![last_model] + props2));
                                    }
                                }
                                last = p2;
                                cur = q2;
                            },
                        }
                    }
                } else if k == TokenType::RightBrace {
                    let ghost prev = children@;
                    let ghost last_model = property_model(last);
                    children.push(last);
                    proof {
                        lemma_props_model(prev);
                        lemma_props_model(children@);
                        assert(props_model(children@) =~= props_model(prev) + seq![last_model]);
                    }
                    let node = Node::Object { children, start, end: tokens[cur].end };
                    return Some((node, cur + 1));
                } else if k == TokenType::String {
                    let repaired = set_property_status(last, PropertyStatus::MissingComma);
                    let ghost repaired_model = property_model(repaired);
                    match parse_property(tokens, cur) {
                        None => {
                            return None;
                        },
                        Some((p2, q2)) => {
                            proof {
                                assert(next_pos(q2 as int, cur as int, n_toks as int)
                                    == q2 as int);
                            }
                            let ghost prev = children@;
                            children.push(repaired);
                            proof {
                                lemma_props_model(prev);
                                lemma_props_model(children@);
                                assert(props_model(children@) =~= props_model(prev) + seq![
                                    repaired_model,
                                ]);
                                if let Some((props2, e)) = spec_obj_rest(
                                    dv,
                                    q2 as int,
                                    property_model(p2),
                                ) {
                                    assert((props_model(prev) + seq![repaired_model]) + props2
                                        =~= props_model(prev) + (seq![repaired_model] + props2));
                                }
                            }
                            last = p2;
                            cur = q2;
                        },
                    }
                } else {
                    return None;
                }
            }
        },
    }
}

/// Parses the array whose opening bracket stands at `pos`, running the
/// array's state machine over the following tokens.
#[verifier::loop_isolation(false)]
fn parse_array(tokens: &Vec<Token>, pos: usize) -> (r: Option<(Node, usize)>)
    requires
        wf_tokens(tokens.deep_view()),
        pos < tokens.len(),
        tokens.deep_view()[pos as int].kind is LeftBracket,
    ensures
        match r {
            Some((n, q)) => {
                &&& spec_parse_array(tokens.deep_view(), pos as int) == Some(
                    (node_model(n), q as int),
                )
                &&& pos + 1 < q <= tokens.len()
            },
            None => spec_parse_array(tokens.deep_view(), pos as int) is None,
        },
    decreases tokens.len() - pos, 0int,
{
    let ghost dv = tokens.deep_view();
    let n_toks = tokens.len();
    let start = tokens[pos].start;
    if pos + 1 < n_toks && tokens[pos + 1].kind == TokenType::RightBracket {
        let node = Node::Array {
            status: ArrayStatus::Valid,
            children: Vec::new(),
            start,
            end: tokens[pos + 1].end,
        };
        proof {
            assert(nodes_model(Seq::empty()) =~= Seq::<NodeModel>::empty());
            assert(node_model(node) == spec_parse_array(dv, pos as int)->Some_0.0);
        }
        return Some((node, pos + 2));
    }
    match inner_parse_value(tokens, pos + 1) {
        None => None,
        Some((v1, q1)) => {
            proof {
                assert(next_pos(q1 as int, pos as int, n_toks as int) == q1 as int);
            }
            let mut children: Vec<Node> = Vec::new();
            let mut errors: Vec<ArrayError> = Vec::new();
            let mut last_end = v1.end();
            let mut cur = q1;
            let ghost v1_model = node_model(v1);
            children.push(v1);
            proof {
                lemma_nodes_model(children@);
                assert(nodes_model(children@) =~= seq![v1_model]);
                if let Some((vs, errs, e)) = spec_arr_rest(
                    dv,
                    q1 as int,
                    model_end(v1_model),
                ) {
                    assert(nodes_model(children@) + vs =~= seq![v1_model] + vs);
                    assert(errors.deep_view() + errs =~= errs);
                }
            }
            loop
                invariant
                    wf_tokens(dv),
                    dv == tokens.deep_view(),
                    n_toks == tokens.len(),
                    pos as int + 1 < cur as int <= n_toks as int,
                    match spec_arr_rest(dv, cur as int, last_end.deep_view()) {
                        Some((vs, errs, e)) => spec_parse_array(dv, pos as int) == Some(
                            (
                                NodeModel::Array {
                                    status: if (errors.deep_view() + errs).len() == 0 {
                                        ArrayStatusModel::Valid
                                    } else {
                                        ArrayStatusModel::Invalid(errors.deep_view() + errs)
                                    },
                                    children: nodes_model(children@) + vs,
                                    start: dv[pos as int].start,
                                    end: dv[e - 1].end,
                                },
                                e,
                            ),
                        ),
                        None => spec_parse_array(dv, pos as int) is None,
                    },
                decreases n_toks - cur,
            {
                if cur >= n_toks {
                    return None;
                }
                let k = tokens[cur].kind;
                if k == TokenType::RightBracket {
                    let ghost errs_dv = errors.deep_view();
                    let ghost kids = nodes_model(children@);
                    proof {
                        assert(errs_dv + Seq::<ArrayErrorModel>::empty() =~= errs_dv);
                        assert(kids + Seq::<NodeModel>::empty() =~= kids);
                    }
                    let status = if errors.len() == 0 {
                        proof {
                            assert(errs_dv =~= Seq::<ArrayErrorModel>::empty());
                        }
                        ArrayStatus::Valid
                    } else {
                        ArrayStatus::Invalid(errors)
                    };
                    let node = Node::Array { status, children, start, end: tokens[cur].end };
                    return Some((node, cur + 1));
                } else if k == TokenType::Comma {
                    if cur + 1 < n_toks && tokens[cur + 1].kind == TokenType::RightBracket {
                        let ghost prev_errs = errors.deep_view();
                        errors.push(ArrayError::TrailingComma(tokens[cur + 1].end));
                        proof {
                            assert(errors.deep_view() =~= prev_errs + seq![
                                ArrayErrorModel::TrailingComma(dv[cur as int + 1].end),
                            ]);
                            assert(nodes_model(children@) + Seq::<NodeModel>::empty()
                                =~= nodes_model(children@));
                        }
                        let status = ArrayStatus::Invalid(errors);
                        let node = Node::Array {
                            status,
                            children,
                            start,
                            end: tokens[cur + 1].end,
                        };
                        return Some((node, cur + 2));
                    } else {
                        match inner_parse_value(tokens, cur + 1) {
                            None => {
                                return None;
                            },
                            Some((v2, q2)) => {
                                proof {
                                    assert(next_pos(q2 as int, cur as int, n_toks as int)
                                        == q2 as int);
                                }
                                let ghost prev = children@;
                                let ghost v2_model = node_model(v2);
                                last_end = v2.end();
                                children.push(v2);
                                proof {
                                    lemma_nodes_model(prev);
                                    lemma_nodes_model(children@);
                                    assert(nodes_model(children@) =~= nodes_model(prev) + seq![
                                        v2_model,
                                    ]);
                                    if let Some((vs2, errs2, e)) = spec_arr_rest(
                                        dv,
                                        q2 as int,
                                        model_end(v2_model),
                                    ) {
                                        assert((nodes_model(prev) + seq![v2_model]) + vs2
                                            =~= nodes_model(prev) + (seq![v2_model] + vs2));
                                    }
                                }
                                cur = q2;
                            },
                        }
                    }
                } else if k == TokenType::LeftBrace || k == TokenType::LeftBracket || k
                    == TokenType::String || k == TokenType::Number || k == TokenType::True || k
                    == TokenType::False || k == TokenType::Null {
                    // a value directly follows a value: missing comma
                    let ghost prev_errs = errors.deep_view();
                    let ghost missing = ArrayErrorModel::MissingComma(last_end.deep_view());
                    errors.push(ArrayError::MissingComma(last_end));
                    proof {
                        assert(errors.deep_view() =~= prev_errs + seq![missing]);
                    }
                    match inner_parse_value(tokens, cur) {
                        None => {
                            return None;
                        },
                        Some((v2, q2)) => {
                            proof {
                                assert(next_pos(q2 as int, cur as int, n_toks as int)
                                    == q2 as int);
                            }
                            let ghost prev = children@;
                            let ghost v2_model = node_model(v2);
                            last_end = v2.end();
                            children.push(v2);
                            proof {
                                lemma_nodes_model(prev);
                                lemma_nodes_model(children@);
                                assert(nodes_model(children@) =~= nodes_model(prev) + seq![
                                    v2_model,
                                ]);
                                if let Some((vs2, errs2, e)) = spec_arr_rest(
                                    dv,
                                    q2 as int,
                                    model_end(v2_model),
                                ) {
                                    assert((nodes_model(prev) + seq![v2_model]) + vs2
                                        =~= nodes_model(prev) + (seq![v2_model] + vs2));
                                    assert((prev_errs + seq![missing]) + errs2 =~= prev_errs + (
                                    seq![missing] + errs2));
                                }
                            }
                            cur = q2;
                        },
                    }
                } else {
                    return None;
                }
            }
        },
    }
}

/// One token, duplicated value for value.
fn clone_token(t: &Token) -> (r: Token)
    ensures
        r.deep_view() == t.deep_view(),
{
    Token {
        kind: t.kind,
        value: match &t.value {
            Some(s) => Some(s.clone()),
            None => None,
        },
        start: t.start,
        end: t.end,
    }
}

/// The token sequence, duplicated token for token.
fn clone_tokens(tokens: &Vec<Token>) -> (r: Vec<Token>)
    ensures
        r.deep_view() == tokens.deep_view(),
{
    let mut out: Vec<Token> = Vec::new();
    let mut i: usize = 0;
    while i < tokens.len()
        invariant
            i <= tokens.len(),
            out.len() == i,
            forall|k: int| 0 <= k < i ==> out.deep_view()[k] == tokens.deep_view()[k],
        decreases tokens.len() - i,
    {
        let t = clone_token(&tokens[i]);
        out.push(t);
        i = i + 1;
    }
    proof {
        assert(out.deep_view() =~= tokens.deep_view());
    }
    out
}

/// Parses a token sequence into a tree. A value parsed from the front of the
/// sequence is a success (tokens after it are ignored); otherwise the result
/// is a failure carrying the tokens, no tree, and no top-level errors.
///
/// The sequence must be well formed — every literal token carries its value —
/// which holds of everything the tokenizer produces.
pub fn parse_value(tokens: &Vec<Token>) -> (r: Parsed)
    requires
        wf_tokens(tokens.deep_view()),
    ensures
        parsed_model(r) == spec_parsed(tokens.deep_view()),
{
    match inner_parse_value(tokens, 0) {
        Some((v, _)) => Parsed::Success { tree: v },
        None => {
            let errors: Vec<crate::types::ParseError> = Vec::new();
            proof {
                assert(errors.deep_view() =~= Seq::<crate::types::ParseErrorModel>::empty());
            }
            Parsed::Failure { tokens: clone_tokens(tokens), tree: None, errors }
        },
    }
}

} // verus!
