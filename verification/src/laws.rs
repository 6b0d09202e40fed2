//! Laws that hold of the library as a whole, each stated and proved over
//! the same models that the contracts of `tokenize` and `parse` use.

use vstd::prelude::*;

use crate::parse::{
    lemma_arr_rest_bounds, lemma_obj_rest_bounds, lemma_parse_property_bounds,
    lemma_parse_value_bounds, is_value_start, next_pos, spec_arr_rest, spec_obj_rest,
    spec_parse_array, spec_parse_object, spec_parse_property, spec_parse_value, with_status,
};
use crate::spec_parse_text;
use crate::tokenize::{
    is_json_whitespace, lemma_token_at_bounds, spec_token_at, spec_tokenize, spec_tokenize_from,
    spec_whitespace,
};
use crate::types::{
    NodeModel, Parsed, ParsedModel, PosModel, PropertyModel, PropertyStatus, TokenModel,
    model_end, model_start, parsed_model,
};

verus! {

broadcast use vstd::seq::axiom_seq_index_decreases, vstd::seq::axiom_seq_subrange_decreases;

/// Law: parsing is deterministic — parsing the exact same source text twice
/// yields structurally identical results. The contract of `parse` pins each
/// result down to `spec_parse_text` of the input, so two results of the same
/// text have equal models.
pub proof fn lemma_reparse_identical(r1: Parsed, r2: Parsed, bytes: Seq<u8>)
    requires
        parsed_model(r1) == spec_parse_text(bytes),
        parsed_model(r2) == spec_parse_text(bytes),
    ensures
        parsed_model(r1) == parsed_model(r2),
{
}

/// Source text made only of whitespace (or nothing at all).
pub open spec fn all_whitespace(bytes: Seq<u8>) -> bool {
    forall|k: int| 0 <= k < bytes.len() ==> is_json_whitespace(#[trigger] bytes[k])
}

/// Whitespace-only input tokenizes to the empty token sequence.
proof fn lemma_whitespace_tokenizes_empty(bytes: Seq<u8>, i: int, line: int, col: int)
    requires
        all_whitespace(bytes),
        0 <= i,
    ensures
        spec_tokenize_from(bytes, i, line, col) == Some(Seq::<TokenModel>::empty()),
    decreases bytes.len() - i,
{
    if i < bytes.len() {
        let p = spec_whitespace(bytes, i, line, col)->Some_0;
        lemma_whitespace_tokenizes_empty(bytes, p.index, p.line, p.column);
    }
}

/// Law: empty or whitespace-only input yields a failure with no tree (and an
/// empty token sequence).
pub proof fn lemma_whitespace_only_fails(bytes: Seq<u8>)
    requires
        all_whitespace(bytes),
    ensures
        spec_parse_text(bytes) == (ParsedModel::Failure {
            tokens: Seq::empty(),
            tree: None,
            errors: Seq::empty(),
        }),
{
    lemma_whitespace_tokenizes_empty(bytes, 0, 1, 1);
}

/// A well-ordered span within an input of `len` bytes.
pub open spec fn span_ok(start: PosModel, end: PosModel, len: int) -> bool {
    0 <= start.index <= end.index <= len
}

/// Every node of the tree, including the tree itself, has a well-ordered
/// span within the input.
pub open spec fn node_spans_ok(m: NodeModel, len: int) -> bool
    decreases m,
{
    match m {
        NodeModel::Object { children, start, end } => span_ok(start, end, len)
            && props_spans_ok(children, len),
        NodeModel::Array { status: _, children, start, end } => span_ok(start, end, len)
            && nodes_spans_ok(children, len),
        NodeModel::String { raw: _, start, end } => span_ok(start, end, len),
        NodeModel::Number { raw: _, start, end } => span_ok(start, end, len),
        NodeModel::Boolean { raw: _, start, end } => span_ok(start, end, len),
        NodeModel::Null { raw: _, start, end } => span_ok(start, end, len),
    }
}

/// Every property of the sequence has a well-ordered span within the input.
pub open spec fn props_spans_ok(s: Seq<PropertyModel>, len: int) -> bool
    decreases s,
    via props_spans_ok_decreases
{
    if s.len() == 0 {
        true
    } else {
        props_spans_ok(s.drop_last(), len) && prop_spans_ok(s.last(), len)
    }
}

#[via_fn]
proof fn props_spans_ok_decreases(s: Seq<PropertyModel>, len: int) {
    if s.len() != 0 {
        assert(decreases_to!(s => s.drop_last()));
        assert(decreases_to!(s => s.last()));
    }
}

/// The property and every node under it have well-ordered spans within the
/// input.
pub open spec fn prop_spans_ok(p: PropertyModel, len: int) -> bool
    decreases p,
{
    span_ok(p.start, p.end, len) && span_ok(p.key.start, p.key.end, len) && node_spans_ok(
        p.value,
        len,
    )
}

/// Every node of the sequence has a well-ordered span within the input.
pub open spec fn nodes_spans_ok(s: Seq<NodeModel>, len: int) -> bool
    decreases s,
    via nodes_spans_ok_decreases
{
    if s.len() == 0 {
        true
    } else {
        nodes_spans_ok(s.drop_last(), len) && node_spans_ok(s.last(), len)
    }
}

#[via_fn]
proof fn nodes_spans_ok_decreases(s: Seq<NodeModel>, len: int) {
    if s.len() != 0 {
        assert(decreases_to!(s => s.drop_last()));
        assert(decreases_to!(s => s.last()));
    }
}

/// `props_spans_ok` holds exactly when it holds of each element.
proof fn lemma_props_spans_index(s: Seq<PropertyModel>, len: int)
    ensures
        props_spans_ok(s, len) <==> (forall|i: int|
            0 <= i < s.len() ==> prop_spans_ok(#[trigger] s[i], len)),
    decreases s.len(),
{
    if s.len() > 0 {
        lemma_props_spans_index(s.drop_last(), len);
        assert(forall|i: int| 0 <= i < s.len() - 1 ==> s.drop_last()[i] == #[trigger] s[i]);
    }
}

/// `nodes_spans_ok` holds exactly when it holds of each element.
proof fn lemma_nodes_spans_index(s: Seq<NodeModel>, len: int)
    ensures
        nodes_spans_ok(s, len) <==> (forall|i: int|
            0 <= i < s.len() ==> node_spans_ok(#[trigger] s[i], len)),
    decreases s.len(),
{
    if s.len() > 0 {
        lemma_nodes_spans_index(s.drop_last(), len);
        assert(forall|i: int| 0 <= i < s.len() - 1 ==> s.drop_last()[i] == #[trigger] s[i]);
    }
}

/// A token sequence whose spans are well-ordered, lie within an input of
/// `len` bytes, and do not overlap, in order.
pub open spec fn tokens_ordered(toks: Seq<TokenModel>, len: int) -> bool {
    &&& forall|k: int|
        0 <= k < toks.len() ==> (0 <= #[trigger] toks[k].start.index && toks[k].start.index
            < toks[k].end.index <= len)
    &&& forall|j: int, k: int|
        0 <= j < k < toks.len() ==> #[trigger] toks[j].end.index <= #[trigger] toks[k].start.index
}

/// The tokenizer produces ordered tokens: each token spans a non-empty byte
/// range within the input, after the position the scan started from, and
/// tokens do not overlap.
proof fn lemma_tokenize_from_ordered(bytes: Seq<u8>, i: int, line: int, col: int)
    requires
        0 <= i,
    ensures
        spec_tokenize_from(bytes, i, line, col) matches Some(ts) ==> tokens_ordered(
            ts,
            bytes.len() as int,
        ) && (forall|k: int| 0 <= k < ts.len() ==> i <= #[trigger] ts[k].start.index),
    decreases bytes.len() - i,
{
    if i >= bytes.len() {
    } else if spec_whitespace(bytes, i, line, col) is Some {
        let p = spec_whitespace(bytes, i, line, col)->Some_0;
        lemma_tokenize_from_ordered(bytes, p.index, p.line, p.column);
    } else if spec_token_at(bytes, i, line, col) is Some {
        let t = spec_token_at(bytes, i, line, col)->Some_0;
        lemma_token_at_bounds(bytes, i, line, col);
        lemma_tokenize_from_ordered(bytes, t.end.index, t.end.line, t.end.column);
        if let Some(rest) = spec_tokenize_from(bytes, t.end.index, t.end.line, t.end.column) {
            let ts = seq![t] + rest;
            assert forall|k: int| 0 <= k < ts.len() implies (0 <= #[trigger] ts[k].start.index
                && ts[k].start.index < ts[k].end.index <= bytes.len() && i
                <= ts[k].start.index) by {
                if k == 0 {
                    assert(ts[0] == t);
                } else {
                    assert(ts[k] == rest[k - 1]);
                }
            }
            assert forall|j: int, k: int| 0 <= j < k < ts.len() implies #[trigger] ts[j].end.index
                <= #[trigger] ts[k].start.index by {
                if j == 0 {
                    assert(ts[0] == t);
                    assert(ts[k] == rest[k - 1]);
                } else {
                    assert(ts[j] == rest[j - 1]);
                    assert(ts[k] == rest[k - 1]);
                }
            }
        }
    }
}

/// A successfully parsed value has well-ordered spans throughout, starts at
/// the token it was parsed from, and ends at the last token it consumed.
proof fn lemma_value_spans(toks: Seq<TokenModel>, pos: int, len: int)
    requires
        tokens_ordered(toks, len),
    ensures
        spec_parse_value(toks, pos) matches Some((v, q)) ==> {
            &&& node_spans_ok(v, len)
            &&& model_start(v) == toks[pos].start
            &&& model_end(v) == toks[q - 1].end
        },
    decreases toks.len() - pos, 1int,
{
    if 0 <= pos < toks.len() {
        if toks[pos].kind is LeftBrace {
            lemma_object_spans(toks, pos, len);
        } else if toks[pos].kind is LeftBracket {
            lemma_array_spans(toks, pos, len);
        }
    }
}

/// A successfully parsed property has well-ordered spans throughout, starts
/// at its key, and ends at its value's end.
proof fn lemma_property_spans(toks: Seq<TokenModel>, pos: int, len: int)
    requires
        tokens_ordered(toks, len),
    ensures
        spec_parse_property(toks, pos) matches Some((p, q)) ==> {
            &&& prop_spans_ok(p, len)
            &&& p.start == toks[pos].start
            &&& p.end == toks[q - 1].end
        },
    decreases toks.len() - pos, 0int,
{
    if 0 <= pos < toks.len() && toks[pos].kind is String && pos + 1 < toks.len() && toks[pos
        + 1].kind is Colon {
        lemma_value_spans(toks, pos + 2, len);
        lemma_parse_value_bounds(toks, pos + 2);
        if let Some((v, q)) = spec_parse_value(toks, pos + 2) {
            // the key token ends before the value's last token ends
            assert(toks[pos].start.index <= toks[q - 1].end.index);
        }
    }
}

/// A successfully parsed object has well-ordered spans throughout, starts at
/// its opening brace, and ends at its closing brace.
proof fn lemma_object_spans(toks: Seq<TokenModel>, pos: int, len: int)
    requires
        tokens_ordered(toks, len),
    ensures
        spec_parse_object(toks, pos) matches Some((v, q)) ==> {
            &&& node_spans_ok(v, len)
            &&& model_start(v) == toks[pos].start
            &&& model_end(v) == toks[q - 1].end
        },
    decreases toks.len() - pos, 0int,
{
    if 0 <= pos < toks.len() && toks[pos].kind is LeftBrace {
        if pos + 1 < toks.len() && toks[pos + 1].kind is RightBrace {
            assert(props_spans_ok(Seq::empty(), len));
            assert(toks[pos].end.index <= toks[pos + 1].start.index);
        } else {
            lemma_property_spans(toks, pos + 1, len);
            lemma_parse_property_bounds(toks, pos + 1);
            if let Some((p, q)) = spec_parse_property(toks, pos + 1) {
                assert(next_pos(q, pos + 1, toks.len() as int) == q);
                lemma_obj_rest_spans(toks, q, p, len);
                lemma_obj_rest_bounds(toks, q, p);
                if let Some((props, e)) = spec_obj_rest(toks, q, p) {
                    assert(pos < e - 1 < toks.len());
                    assert(toks[pos].end.index <= toks[e - 1].start.index);
                }
            }
        }
    }
}

/// The rest of an object, parsed after the property `last`, has well-ordered
/// spans throughout.
proof fn lemma_obj_rest_spans(toks: Seq<TokenModel>, pos: int, last: PropertyModel, len: int)
    requires
        tokens_ordered(toks, len),
        prop_spans_ok(last, len),
    ensures
        spec_obj_rest(toks, pos, last) matches Some((props, e)) ==> props_spans_ok(props, len),
    decreases toks.len() - pos, 2int,
{
    if 0 <= pos < toks.len() {
        if toks[pos].kind is Comma {
            if pos + 1 < toks.len() && toks[pos + 1].kind is RightBrace {
                let repaired = with_status(last, PropertyStatus::TrailingComma);
                assert(props_spans_ok(seq![repaired], len)) by {
                    assert(prop_spans_ok(repaired, len));
                    assert(seq![repaired].drop_last() =~= Seq::<PropertyModel>::empty());
                    assert(props_spans_ok(Seq::<PropertyModel>::empty(), len));
                    assert(seq![repaired].last() == repaired);
                }
            } else {
                lemma_property_spans(toks, pos + 1, len);
                lemma_parse_property_bounds(toks, pos + 1);
                if let Some((p, q)) = spec_parse_property(toks, pos + 1) {
                    lemma_obj_rest_spans(toks, next_pos(q, pos, toks.len() as int), p, len);
                    if let Some((props, e)) = spec_obj_rest(
                        toks,
                        next_pos(q, pos, toks.len() as int),
                        p,
                    ) {
                        lemma_props_spans_index(props, len);
                        lemma_props_spans_index(seq![last] + props, len);
                        assert(forall|i: int|
                            0 <= i < props.len() ==> (seq![last] + props)[i + 1] == #[trigger]
                            props[i]);
                    }
                }
            }
        } else if toks[pos].kind is RightBrace {
            assert(props_spans_ok(seq![last], len)) by {
                assert(seq![last].drop_last() =~= Seq::<PropertyModel>::empty());
                assert(props_spans_ok(Seq::<PropertyModel>::empty(), len));
                assert(seq![last].last() == last);
            }
        } else if toks[pos].kind is String {
            lemma_property_spans(toks, pos, len);
            lemma_parse_property_bounds(toks, pos);
            if let Some((p, q)) = spec_parse_property(toks, pos) {
                lemma_obj_rest_spans(toks, next_pos(q, pos, toks.len() as int), p, len);
                if let Some((props, e)) = spec_obj_rest(
                    toks,
                    next_pos(q, pos, toks.len() as int),
                    p,
                ) {
                    let repaired = with_status(last, PropertyStatus::MissingComma);
                    lemma_props_spans_index(props, len);
                    lemma_props_spans_index(seq![repaired] + props, len);
                    assert(forall|i: int|
                        0 <= i < props.len() ==> (seq![repaired] + props)[i + 1] == #[trigger]
                        props[i]);
                }
            }
        }
    }
}

/// A successfully parsed array has well-ordered spans throughout, starts at
/// its opening bracket, and ends at its closing bracket.
proof fn lemma_array_spans(toks: Seq<TokenModel>, pos: int, len: int)
    requires
        tokens_ordered(toks, len),
    ensures
        spec_parse_array(toks, pos) matches Some((v, q)) ==> {
            &&& node_spans_ok(v, len)
            &&& model_start(v) == toks[pos].start
            &&& model_end(v) == toks[q - 1].end
        },
    decreases toks.len() - pos, 0int,
{
    if 0 <= pos < toks.len() && toks[pos].kind is LeftBracket {
        if pos + 1 < toks.len() && toks[pos + 1].kind is RightBracket {
            assert(nodes_spans_ok(Seq::empty(), len));
            assert(toks[pos].end.index <= toks[pos + 1].start.index);
        } else {
            lemma_value_spans(toks, pos + 1, len);
            lemma_parse_value_bounds(toks, pos + 1);
            if let Some((v, q)) = spec_parse_value(toks, pos + 1) {
                assert(next_pos(q, pos, toks.len() as int) == q);
                lemma_arr_rest_spans(toks, q, model_end(v), len);
                lemma_arr_rest_bounds(toks, q, model_end(v));
                if let Some((vs, errs, e)) = spec_arr_rest(toks, q, model_end(v)) {
                    assert(pos < e - 1 < toks.len());
                    assert(toks[pos].end.index <= toks[e - 1].start.index);
                    lemma_nodes_spans_index(vs, len);
                    lemma_nodes_spans_index(seq![v] + vs, len);
                    assert((seq![v] + vs)[0] == v);
                    assert(forall|i: int|
                        0 <= i < vs.len() ==> (seq![v] + vs)[i + 1] == #[trigger] vs[i]);
                }
            }
        }
    }
}

/// The rest of an array has well-ordered spans throughout.
proof fn lemma_arr_rest_spans(toks: Seq<TokenModel>, pos: int, last_end: PosModel, len: int)
    requires
        tokens_ordered(toks, len),
    ensures
        spec_arr_rest(toks, pos, last_end) matches Some((vs, errs, e)) ==> nodes_spans_ok(
            vs,
            len,
        ),
    decreases toks.len() - pos, 2int,
{
    if 0 <= pos < toks.len() {
        if toks[pos].kind is RightBracket {
        } else if toks[pos].kind is Comma {
            if pos + 1 < toks.len() && toks[pos + 1].kind is RightBracket {
            } else {
                lemma_value_spans(toks, pos + 1, len);
                lemma_parse_value_bounds(toks, pos + 1);
                if let Some((v, q)) = spec_parse_value(toks, pos + 1) {
                    lemma_arr_rest_spans(
                        toks,
                        next_pos(q, pos, toks.len() as int),
                        model_end(v),
                        len,
                    );
                    if let Some((vs, errs, e)) = spec_arr_rest(
                        toks,
                        next_pos(q, pos, toks.len() as int),
                        model_end(v),
                    ) {
                        lemma_nodes_spans_index(vs, len);
                        lemma_nodes_spans_index(seq![v] + vs, len);
                        assert(forall|i: int|
                            0 <= i < vs.len() ==> (seq![v] + vs)[i + 1] == #[trigger] vs[i]);
                    }
                }
            }
        } else if is_value_start(toks[pos].kind) {
            lemma_value_spans(toks, pos, len);
            lemma_parse_value_bounds(toks, pos);
            if let Some((v, q)) = spec_parse_value(toks, pos) {
                lemma_arr_rest_spans(toks, next_pos(q, pos, toks.len() as int), model_end(v), len);
                if let Some((vs, errs, e)) = spec_arr_rest(
                    toks,
                    next_pos(q, pos, toks.len() as int),
                    model_end(v),
                ) {
                    lemma_nodes_spans_index(vs, len);
                    lemma_nodes_spans_index(seq![v] + vs, len);
                    assert(forall|i: int|
                        0 <= i < vs.len() ==> (seq![v] + vs)[i + 1] == #[trigger] vs[i]);
                }
            }
        }
    }
}

/// Law: round-trip span coverage. Every node of a successfully parsed tree
/// spans a well-ordered byte range within the input, and the root node spans
/// from the first token's start to the end of the last token the parse
/// consumed.
pub proof fn lemma_span_coverage(bytes: Seq<u8>, toks: Seq<TokenModel>, v: NodeModel, q: int)
    requires
        spec_tokenize(bytes) == Some(toks),
        spec_parse_value(toks, 0) == Some((v, q)),
    ensures
        node_spans_ok(v, bytes.len() as int),
        model_start(v) == toks[0].start,
        model_end(v) == toks[q - 1].end,
{
    lemma_tokenize_from_ordered(bytes, 0, 1, 1);
    lemma_value_spans(toks, 0, bytes.len() as int);
}

/// Law: span coverage at the entry point. When parsing a source text
/// succeeds, every node of the tree — the root included — spans a
/// well-ordered byte range within that text.
pub proof fn lemma_parse_text_span_coverage(bytes: Seq<u8>, tree: NodeModel)
    requires
        spec_parse_text(bytes) == (ParsedModel::Success { tree }),
    ensures
        node_spans_ok(tree, bytes.len() as int),
{
    if let Some(toks) = spec_tokenize(bytes) {
        if let Some((v, q)) = spec_parse_value(toks, 0) {
            lemma_span_coverage(bytes, toks, v, q);
        }
    }
}

} // verus!
