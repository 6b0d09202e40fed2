//! The shared data model: source positions, tokens, tree nodes, and results,
//! together with the mathematical models (`...Model` types) that the
//! contracts of the tokenizer and the parser are stated over.
//!
//! Each executable type has a `DeepView` whose target is a ghost model built
//! from `int`, `Seq` and `Option`; the tokenizer and parser contracts are
//! stated entirely over these models.

use vstd::prelude::*;

verus! {

/// The lexical kind of a token.
#[derive(Copy, Clone, Debug, PartialEq, Eq, Structural)]
pub enum TokenType {
    LeftBrace,
    RightBrace,
    LeftBracket,
    RightBracket,
    Colon,
    Comma,
    String,
    Number,
    True,
    False,
    Null,
}

/// A point in the source text: 1-based line and column, 0-based byte index.
#[derive(Copy, Clone, Debug, PartialEq, Eq, Structural)]
pub struct Position {
    pub line: usize,
    pub column: usize,
    pub index: usize,
}

/// The mathematical model of a `Position`, over unbounded integers.
pub struct PosModel {
    pub line: int,
    pub column: int,
    pub index: int,
}

impl DeepView for Position {
    type V = PosModel;

    open spec fn deep_view(&self) -> PosModel {
        PosModel { line: self.line as int, column: self.column as int, index: self.index as int }
    }
}

/// A lexical token: its kind, the decoded raw text for literal kinds,
/// and the source span it was matched from.
#[derive(Clone, Debug)]
pub struct Token {
    pub kind: TokenType,
    pub value: Option<String>,
    pub start: Position,
    pub end: Position,
}

/// The mathematical model of a `Token`: the value as a character sequence.
pub struct TokenModel {
    pub kind: TokenType,
    pub value: Option<Seq<char>>,
    pub start: PosModel,
    pub end: PosModel,
}

impl DeepView for Token {
    type V = TokenModel;

    open spec fn deep_view(&self) -> TokenModel {
        TokenModel {
            kind: self.kind,
            value: self.value.deep_view(),
            start: self.start.deep_view(),
            end: self.end.deep_view(),
        }
    }
}

/// A defect recorded inside an array, at the position where it was detected.
#[derive(Clone, Debug)]
pub enum ArrayError {
    TrailingComma(Position),
    MissingComma(Position),
}

/// The mathematical model of an `ArrayError`.
pub enum ArrayErrorModel {
    TrailingComma(PosModel),
    MissingComma(PosModel),
}

impl DeepView for ArrayError {
    type V = ArrayErrorModel;

    open spec fn deep_view(&self) -> ArrayErrorModel {
        match *self {
            ArrayError::TrailingComma(p) => ArrayErrorModel::TrailingComma(p.deep_view()),
            ArrayError::MissingComma(p) => ArrayErrorModel::MissingComma(p.deep_view()),
        }
    }
}

/// Whether an array was well-formed, or which defects it carried.
#[derive(Clone, Debug)]
pub enum ArrayStatus {
    Valid,
    Invalid(Vec<ArrayError>),
}

/// The mathematical model of an `ArrayStatus`.
pub enum ArrayStatusModel {
    Valid,
    Invalid(Seq<ArrayErrorModel>),
}

impl DeepView for ArrayStatus {
    type V = ArrayStatusModel;

    open spec fn deep_view(&self) -> ArrayStatusModel {
        match self {
            ArrayStatus::Valid => ArrayStatusModel::Valid,
            ArrayStatus::Invalid(errs) => ArrayStatusModel::Invalid(errs.deep_view()),
        }
    }
}

/// The recovery status of an object property.
#[derive(Copy, Clone, Debug, PartialEq, Eq, Structural)]
pub enum PropertyStatus {
    Valid,
    TrailingComma,
    MissingComma,
}

/// An object key: the decoded text without the surrounding quotes.
#[derive(Clone, Debug)]
pub struct Identifier {
    pub raw: String,
    pub start: Position,
    pub end: Position,
}

/// The mathematical model of an `Identifier`.
pub struct IdentifierModel {
    pub raw: Seq<char>,
    pub start: PosModel,
    pub end: PosModel,
}

impl DeepView for Identifier {
    type V = IdentifierModel;

    open spec fn deep_view(&self) -> IdentifierModel {
        IdentifierModel {
            raw: self.raw.deep_view(),
            start: self.start.deep_view(),
            end: self.end.deep_view(),
        }
    }
}

/// A node of the syntax tree. `raw` fields preserve the exact source text;
/// string escapes are kept as written, not decoded.
#[derive(Debug)]
pub enum Node {
    Object { children: Vec<Property>, start: Position, end: Position },
    Array { status: ArrayStatus, children: Vec<Node>, start: Position, end: Position },
    String { raw: String, start: Position, end: Position },
    Number { raw: String, start: Position, end: Position },
    Boolean { raw: String, start: Position, end: Position },
    Null { raw: String, start: Position, end: Position },
}

/// A key/value pair inside an object, with its recovery status.
#[derive(Debug)]
pub struct Property {
    pub status: PropertyStatus,
    pub key: Identifier,
    pub value: Node,
    pub start: Position,
    pub end: Position,
}

/// The mathematical model of a `Node`.
pub enum NodeModel {
    Object { children: Seq<PropertyModel>, start: PosModel, end: PosModel },
    Array { status: ArrayStatusModel, children: Seq<NodeModel>, start: PosModel, end: PosModel },
    String { raw: Seq<char>, start: PosModel, end: PosModel },
    Number { raw: Seq<char>, start: PosModel, end: PosModel },
    Boolean { raw: Seq<char>, start: PosModel, end: PosModel },
    Null { raw: Seq<char>, start: PosModel, end: PosModel },
}

/// The mathematical model of a `Property`.
pub struct PropertyModel {
    pub status: PropertyStatus,
    pub key: IdentifierModel,
    pub value: NodeModel,
    pub start: PosModel,
    pub end: PosModel,
}

/// The model of a `Node`, mapped recursively over its children.
pub open spec fn node_model(n: Node) -> NodeModel
    decreases n,
    via node_model_decreases
{
    match n {
        Node::Object { children, start, end } => NodeModel::Object {
            children: props_model(children@),
            start: start.deep_view(),
            end: end.deep_view(),
        },
        Node::Array { status, children, start, end } => NodeModel::Array {
            status: status.deep_view(),
            children: nodes_model(children@),
            start: start.deep_view(),
            end: end.deep_view(),
        },
        Node::String { raw, start, end } => NodeModel::String {
            raw: raw.deep_view(),
            start: start.deep_view(),
            end: end.deep_view(),
        },
        Node::Number { raw, start, end } => NodeModel::Number {
            raw: raw.deep_view(),
            start: start.deep_view(),
            end: end.deep_view(),
        },
        Node::Boolean { raw, start, end } => NodeModel::Boolean {
            raw: raw.deep_view(),
            start: start.deep_view(),
            end: end.deep_view(),
        },
        Node::Null { raw, start, end } => NodeModel::Null {
            raw: raw.deep_view(),
            start: start.deep_view(),
            end: end.deep_view(),
        },
    }
}

#[via_fn]
proof fn node_model_decreases(n: Node) {
    broadcast use vstd::std_specs::vec::axiom_vec_decreases_to_view;

    match n {
        Node::Object { children, .. } => {
            assert(decreases_to!(n => children));
            assert(decreases_to!(children => children@));
        },
        Node::Array { children, .. } => {
            assert(decreases_to!(n => children));
            assert(decreases_to!(children => children@));
        },
        _ => {},
    }
}

/// The model of a property sequence, element by element.
pub open spec fn props_model(s: Seq<Property>) -> Seq<PropertyModel>
    decreases s,
    via props_model_decreases
{
    if s.len() == 0 {
        Seq::empty()
    } else {
        props_model(s.drop_last()).push(property_model(s.last()))
    }
}

#[via_fn]
proof fn props_model_decreases(s: Seq<Property>) {
    broadcast use vstd::seq::axiom_seq_index_decreases, vstd::seq::axiom_seq_subrange_decreases;

    if s.len() != 0 {
        assert(decreases_to!(s => s.drop_last()));
        assert(decreases_to!(s => s.last()));
    }
}

/// The model of a node sequence, element by element.
pub open spec fn nodes_model(s: Seq<Node>) -> Seq<NodeModel>
    decreases s,
    via nodes_model_decreases
{
    if s.len() == 0 {
        Seq::empty()
    } else {
        nodes_model(s.drop_last()).push(node_model(s.last()))
    }
}

#[via_fn]
proof fn nodes_model_decreases(s: Seq<Node>) {
    broadcast use vstd::seq::axiom_seq_index_decreases, vstd::seq::axiom_seq_subrange_decreases;

    if s.len() != 0 {
        assert(decreases_to!(s => s.drop_last()));
        assert(decreases_to!(s => s.last()));
    }
}

/// `props_model` maps its sequence element by element.
pub proof fn lemma_props_model(s: Seq<Property>)
    ensures
        props_model(s).len() == s.len(),
        forall|i: int| 0 <= i < s.len() ==> #[trigger] props_model(s)[i] == property_model(s[i]),
    decreases s.len(),
{
    if s.len() != 0 {
        lemma_props_model(s.drop_last());
    }
}

/// `nodes_model` maps its sequence element by element.
pub proof fn lemma_nodes_model(s: Seq<Node>)
    ensures
        nodes_model(s).len() == s.len(),
        forall|i: int| 0 <= i < s.len() ==> #[trigger] nodes_model(s)[i] == node_model(s[i]),
    decreases s.len(),
{
    if s.len() != 0 {
        lemma_nodes_model(s.drop_last());
    }
}

/// The model of a `Property`, mapped recursively over its value.
pub open spec fn property_model(p: Property) -> PropertyModel
    decreases p,
{
    PropertyModel {
        status: p.status,
        key: p.key.deep_view(),
        value: node_model(p.value),
        start: p.start.deep_view(),
        end: p.end.deep_view(),
    }
}

/// The end position of a node's model.
pub open spec fn model_end(m: NodeModel) -> PosModel {
    match m {
        NodeModel::Object { end, .. } => end,
        NodeModel::Array { end, .. } => end,
        NodeModel::String { end, .. } => end,
        NodeModel::Number { end, .. } => end,
        NodeModel::Boolean { end, .. } => end,
        NodeModel::Null { end, .. } => end,
    }
}

/// The start position of a node's model.
pub open spec fn model_start(m: NodeModel) -> PosModel {
    match m {
        NodeModel::Object { start, .. } => start,
        NodeModel::Array { start, .. } => start,
        NodeModel::String { start, .. } => start,
        NodeModel::Number { start, .. } => start,
        NodeModel::Boolean { start, .. } => start,
        NodeModel::Null { start, .. } => start,
    }
}

impl Node {
    /// The end position of the source span this node was built from.
    pub fn end(&self) -> (r: Position)
        ensures
            r.deep_view() == model_end(node_model(*self)),
    {
        match self {
            Node::Object { end, .. } => *end,
            Node::Array { end, .. } => *end,
            Node::String { end, .. } => *end,
            Node::Number { end, .. } => *end,
            Node::Boolean { end, .. } => *end,
            Node::Null { end, .. } => *end,
        }
    }
}

/// The category of a parse error reported at the top level.
#[derive(Copy, Clone, Debug, PartialEq, Eq, Structural)]
pub enum ParseErrorType {
    TrailingComma,
    Unknown,
}

/// A top-level parse error with the position it was detected at.
#[derive(Clone, Debug)]
pub struct ParseError {
    pub position: Position,
    pub error_type: ParseErrorType,
}

/// The mathematical model of a `ParseError`.
pub struct ParseErrorModel {
    pub position: PosModel,
    pub error_type: ParseErrorType,
}

impl DeepView for ParseError {
    type V = ParseErrorModel;

    open spec fn deep_view(&self) -> ParseErrorModel {
        ParseErrorModel { position: self.position.deep_view(), error_type: self.error_type }
    }
}

/// The outcome of a parse: a tree, or a failure carrying the token sequence.
#[derive(Debug)]
pub enum Parsed {
    Success { tree: Node },
    Failure { tokens: Vec<Token>, tree: Option<Node>, errors: Vec<ParseError> },
}

/// The mathematical model of a `Parsed` outcome.
pub enum ParsedModel {
    Success { tree: NodeModel },
    Failure { tokens: Seq<TokenModel>, tree: Option<NodeModel>, errors: Seq<ParseErrorModel> },
}

/// The model of a `Parsed` outcome, mapped recursively over its tree.
pub open spec fn parsed_model(p: Parsed) -> ParsedModel {
    match p {
        Parsed::Success { tree } => ParsedModel::Success { tree: node_model(tree) },
        Parsed::Failure { tokens, tree, errors } => ParsedModel::Failure {
            tokens: tokens.deep_view(),
            tree: match tree {
                Some(t) => Some(node_model(t)),
                None => None,
            },
            errors: errors.deep_view(),
        },
    }
}

} // verus!
