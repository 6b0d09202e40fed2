//! The tokenizer: scans the source text left to right and produces the
//! ordered token sequence, tracking 1-based line/column and 0-based byte
//! positions.
//!
//! The scan is specified over the UTF-8 bytes of the input. At each position
//! it tries, in order: whitespace, punctuator, keyword, string, number. The
//! first match consumes its run; if none matches, the whole scan fails.
//! `spec_tokenize` is the mathematical description of the scan, and
//! `tokenize` is proved to return exactly its result.

use vstd::prelude::*;
use vstd::string::*;
use vstd::utf8::*;

use crate::types::{PosModel, Position, Token, TokenModel, TokenType};

verus! {

/// Whitespace accepted between tokens: space, tab, carriage return, newline.
pub open spec fn is_json_whitespace(c: u8) -> bool {
    c == 32 || c == 9 || c == 13 || c == 10
}

/// The token kind of a single-character punctuator, if the byte is one.
pub open spec fn spec_punctuator(c: u8) -> Option<TokenType> {
    if c == 123 {  // {
        Some(TokenType::LeftBrace)
    } else if c == 125 {  // }
        Some(TokenType::RightBrace)
    } else if c == 91 {  // [
        Some(TokenType::LeftBracket)
    } else if c == 93 {  // ]
        Some(TokenType::RightBracket)
    } else if c == 58 {  // :
        Some(TokenType::Colon)
    } else if c == 44 {  // ,
        Some(TokenType::Comma)
    } else {
        None
    }
}

/// The position reached after consuming one whitespace run element at `i`:
/// space and tab advance the column; a newline starts a new line; a carriage
/// return (with an immediately following newline consumed together) advances
/// both line and column by one.
pub open spec fn spec_whitespace(bytes: Seq<u8>, i: int, line: int, col: int) -> Option<PosModel> {
    if !(0 <= i < bytes.len()) {
        None
    } else if bytes[i] == 13 {  // carriage return
        Some(
            PosModel {
                line: line + 1,
                column: col + 1,
                index: if i + 1 < bytes.len() && bytes[i + 1] == 10 {
                    i + 2
                } else {
                    i + 1
                },
            },
        )
    } else if bytes[i] == 10 {  // newline
        Some(PosModel { line: line + 1, column: 1, index: i + 1 })
    } else if bytes[i] == 9 || bytes[i] == 32 {  // tab, space
        Some(PosModel { line, column: col + 1, index: i + 1 })
    } else {
        None
    }
}

/// The keyword (`true`, `false` or `null`) starting at `i`, with the index
/// just past it.
pub open spec fn spec_keyword(bytes: Seq<u8>, i: int) -> Option<(TokenType, int)> {
    if i + 4 <= bytes.len() && bytes[i] == 116 && bytes[i + 1] == 114 && bytes[i + 2] == 117
        && bytes[i + 3] == 101 {  // true
        Some((TokenType::True, i + 4))
    } else if i + 4 <= bytes.len() && bytes[i] == 110 && bytes[i + 1] == 117 && bytes[i + 2] == 108
        && bytes[i + 3] == 108 {  // null
        Some((TokenType::Null, i + 4))
    } else if i + 5 <= bytes.len() && bytes[i] == 102 && bytes[i + 1] == 97 && bytes[i + 2] == 108
        && bytes[i + 3] == 115 && bytes[i + 4] == 101 {  // false
        Some((TokenType::False, i + 5))
    } else {
        None
    }
}

/// A character that may follow a backslash in a string, other than `u`:
/// quotation mark, reverse solidus, solidus, b, f, n, r, t.
pub open spec fn is_simple_escape(c: u8) -> bool {
    c == 34 || c == 92 || c == 47 || c == 98 || c == 102 || c == 110 || c == 114 || c == 116
}

/// An ASCII hexadecimal digit.
pub open spec fn is_hex_digit(c: u8) -> bool {
    (48 <= c <= 57) || (97 <= c <= 102) || (65 <= c <= 70)
}

/// Scans string content from `j` (just past the opening quote): an unescaped
/// quote closes the string and yields the index just past it; a backslash
/// must be followed by a valid escape (`u` takes four hex digits); any other
/// byte is content. Reaching the end of input is a non-match.
pub open spec fn spec_string_end(bytes: Seq<u8>, j: int) -> Option<int>
    decreases bytes.len() - j,
{
    if !(0 <= j < bytes.len()) {
        None
    } else if bytes[j] == 34 {  // closing quote
        Some(j + 1)
    } else if bytes[j] == 92 {  // backslash
        if j + 1 >= bytes.len() {
            None
        } else if bytes[j + 1] == 117 {  // u
            if j + 6 <= bytes.len() && is_hex_digit(bytes[j + 2]) && is_hex_digit(bytes[j + 3])
                && is_hex_digit(bytes[j + 4]) && is_hex_digit(bytes[j + 5]) {
                spec_string_end(bytes, j + 6)
            } else {
                None
            }
        } else if is_simple_escape(bytes[j + 1]) {
            spec_string_end(bytes, j + 2)
        } else {
            None
        }
    } else {
        spec_string_end(bytes, j + 1)
    }
}

/// The index just past a string token starting at `i` (at its opening quote).
pub open spec fn spec_match_string(bytes: Seq<u8>, i: int) -> Option<int> {
    if 0 <= i < bytes.len() && bytes[i] == 34 {
        spec_string_end(bytes, i + 1)
    } else {
        None
    }
}

/// An ASCII decimal digit.
pub open spec fn is_digit(c: u8) -> bool {
    48 <= c <= 57
}

/// The first index at or after `j` that does not hold a decimal digit.
pub open spec fn digit_run_end(bytes: Seq<u8>, j: int) -> int
    decreases bytes.len() - j,
{
    if !(0 <= j < bytes.len()) {
        j
    } else if is_digit(bytes[j]) {
        digit_run_end(bytes, j + 1)
    } else {
        j
    }
}

/// The index just past the longest number starting at `i` that the JSON
/// number grammar accepts: an optional minus; `0` or a nonzero digit run; an
/// optional fraction (a point followed by at least one digit); an optional
/// exponent (`e`/`E`, an optional sign, and at least one digit). An optional
/// part whose digits are missing is left out of the match.
pub open spec fn spec_number_end(bytes: Seq<u8>, i: int) -> Option<int> {
    let m = if 0 <= i < bytes.len() && bytes[i] == 45 {
        i + 1
    } else {
        i
    };
    if !(0 <= m < bytes.len() && is_digit(bytes[m])) {
        None
    } else {
        let ip = if bytes[m] == 48 {
            m + 1
        } else {
            digit_run_end(bytes, m)
        };
        let fp = if ip + 1 < bytes.len() && bytes[ip] == 46 && is_digit(bytes[ip + 1]) {
            digit_run_end(bytes, ip + 2)
        } else {
            ip
        };
        let ep = if fp < bytes.len() && (bytes[fp] == 101 || bytes[fp] == 69) {
            let s = if fp + 1 < bytes.len() && (bytes[fp + 1] == 43 || bytes[fp + 1] == 45) {
                fp + 2
            } else {
                fp + 1
            };
            if s < bytes.len() && is_digit(bytes[s]) {
                digit_run_end(bytes, s + 1)
            } else {
                fp
            }
        } else {
            fp
        };
        Some(ep)
    }
}

/// The token matched at position `i` (not a whitespace position), if any:
/// punctuator, keyword, string, then number, in that order. Its `end`
/// position advances the column by the token's byte length; a token never
/// spans a line break.
pub open spec fn spec_token_at(bytes: Seq<u8>, i: int, line: int, col: int) -> Option<TokenModel> {
    let start = PosModel { line, column: col, index: i };
    if 0 <= i < bytes.len() && spec_punctuator(bytes[i]) is Some {
        Some(
            TokenModel {
                kind: spec_punctuator(bytes[i])->Some_0,
                value: None,
                start,
                end: PosModel { line, column: col + 1, index: i + 1 },
            },
        )
    } else if spec_keyword(bytes, i) is Some {
        let (kind, e) = spec_keyword(bytes, i)->Some_0;
        Some(
            TokenModel {
                kind,
                value: Some(decode_utf8(bytes.subrange(i, e))),
                start,
                end: PosModel { line, column: col + (e - i), index: e },
            },
        )
    } else if spec_match_string(bytes, i) is Some {
        let e = spec_match_string(bytes, i)->Some_0;
        Some(
            TokenModel {
                kind: TokenType::String,
                value: Some(decode_utf8(bytes.subrange(i + 1, e - 1))),
                start,
                end: PosModel { line, column: col + (e - i), index: e },
            },
        )
    } else if spec_number_end(bytes, i) is Some {
        let e = spec_number_end(bytes, i)->Some_0;
        Some(
            TokenModel {
                kind: TokenType::Number,
                value: Some(decode_utf8(bytes.subrange(i, e))),
                start,
                end: PosModel { line, column: col + (e - i), index: e },
            },
        )
    } else {
        None
    }
}

/// The token sequence produced by scanning from position `i` at the given
/// line and column, or `None` when some position matches no lexical rule.
pub open spec fn spec_tokenize_from(bytes: Seq<u8>, i: int, line: int, col: int) -> Option<
    Seq<TokenModel>,
>
    decreases bytes.len() - i,
    via spec_tokenize_from_decreases
{
    if i >= bytes.len() || i < 0 {
        Some(Seq::empty())
    } else if spec_whitespace(bytes, i, line, col) is Some {
        let p = spec_whitespace(bytes, i, line, col)->Some_0;
        spec_tokenize_from(bytes, p.index, p.line, p.column)
    } else if spec_token_at(bytes, i, line, col) is Some {
        let t = spec_token_at(bytes, i, line, col)->Some_0;
        match spec_tokenize_from(bytes, t.end.index, t.end.line, t.end.column) {
            Some(rest) => Some(seq![t] + rest),
            None => None,
        }
    } else {
        None
    }
}

#[via_fn]
proof fn spec_tokenize_from_decreases(bytes: Seq<u8>, i: int, line: int, col: int) {
    if 0 <= i < bytes.len() {
        if spec_whitespace(bytes, i, line, col) is None
            && spec_token_at(bytes, i, line, col) is Some {
            lemma_token_at_bounds(bytes, i, line, col);
        }
    }
}

/// The token sequence of the whole input, starting at line 1, column 1.
pub open spec fn spec_tokenize(bytes: Seq<u8>) -> Option<Seq<TokenModel>> {
    spec_tokenize_from(bytes, 0, 1, 1)
}

/// A digit run stays within bounds, consists of digits, and is maximal.
pub proof fn lemma_digit_run_end(bytes: Seq<u8>, j: int)
    requires
        0 <= j <= bytes.len(),
    ensures
        j <= digit_run_end(bytes, j) <= bytes.len(),
        forall|k: int| j <= k < digit_run_end(bytes, j) ==> is_digit(#[trigger] bytes[k]),
        digit_run_end(bytes, j) < bytes.len() ==> !is_digit(bytes[digit_run_end(bytes, j)]),
    decreases bytes.len() - j,
{
    if j < bytes.len() && is_digit(bytes[j]) {
        lemma_digit_run_end(bytes, j + 1);
    }
}

/// A matched string token ends past where it began and within the input.
pub proof fn lemma_string_end_bounds(bytes: Seq<u8>, j: int)
    requires
        spec_string_end(bytes, j) is Some,
    ensures
        j < spec_string_end(bytes, j)->Some_0 <= bytes.len(),
    decreases bytes.len() - j,
{
    if 0 <= j < bytes.len() {
        if bytes[j] == 34 {
        } else if bytes[j] == 92 {
            if bytes[j + 1] == 117 {
                lemma_string_end_bounds(bytes, j + 6);
            } else {
                lemma_string_end_bounds(bytes, j + 2);
            }
        } else {
            lemma_string_end_bounds(bytes, j + 1);
        }
    }
}

/// A matched number token ends past where it began and within the input.
pub proof fn lemma_number_end_bounds(bytes: Seq<u8>, i: int)
    requires
        0 <= i <= bytes.len(),
        spec_number_end(bytes, i) is Some,
    ensures
        i < spec_number_end(bytes, i)->Some_0 <= bytes.len(),
{
    let m = if i < bytes.len() && bytes[i] == 45 {
        i + 1
    } else {
        i
    };
    lemma_digit_run_end(bytes, m);
    let ip = if bytes[m] == 48 {
        m + 1
    } else {
        digit_run_end(bytes, m)
    };
    if ip + 1 < bytes.len() && bytes[ip] == 46 && is_digit(bytes[ip + 1]) {
        lemma_digit_run_end(bytes, ip + 2);
    }
    let fp = if ip + 1 < bytes.len() && bytes[ip] == 46 && is_digit(bytes[ip + 1]) {
        digit_run_end(bytes, ip + 2)
    } else {
        ip
    };
    if fp < bytes.len() && (bytes[fp] == 101 || bytes[fp] == 69) {
        let s = if fp + 1 < bytes.len() && (bytes[fp + 1] == 43 || bytes[fp + 1] == 45) {
            fp + 2
        } else {
            fp + 1
        };
        if s < bytes.len() && is_digit(bytes[s]) {
            lemma_digit_run_end(bytes, s + 1);
        }
    }
}

/// A matched token ends past where it began and within the input.
pub proof fn lemma_token_at_bounds(bytes: Seq<u8>, i: int, line: int, col: int)
    requires
        0 <= i < bytes.len(),
        spec_token_at(bytes, i, line, col) is Some,
    ensures
        i < spec_token_at(bytes, i, line, col)->Some_0.end.index <= bytes.len(),
        spec_token_at(bytes, i, line, col)->Some_0.start == (PosModel {
            line,
            column: col,
            index: i,
        }),
        spec_token_at(bytes, i, line, col)->Some_0.end.line == line,
        spec_token_at(bytes, i, line, col)->Some_0.end.column == col + (spec_token_at(
            bytes,
            i,
            line,
            col,
        )->Some_0.end.index - i),
{
    if spec_punctuator(bytes[i]) is Some {
    } else if spec_keyword(bytes, i) is Some {
    } else if spec_match_string(bytes, i) is Some {
        lemma_string_end_bounds(bytes, i + 1);
    } else {
        lemma_number_end_bounds(bytes, i);
    }
}

/// After a one-byte (ASCII) character at a boundary, the next position is
/// again a character boundary.
proof fn lemma_ascii_step(bytes: Seq<u8>, a: int)
    requires
        valid_utf8(bytes),
        0 <= a < bytes.len(),
        is_char_boundary(bytes, a),
        bytes[a] < 0x80,
    ensures
        is_char_boundary(bytes, a + 1),
{
    valid_utf8_split(bytes, a);
    let suf = bytes.subrange(a, bytes.len() as int);
    assert(valid_first_scalar(suf));
    assert(is_leading_byte_width_1(suf[0]));
    assert(length_of_first_scalar(suf) == 1);
    let suf2 = pop_first_scalar(suf);
    assert(valid_utf8(suf2));
    assert(suf2 =~= bytes.subrange(a + 1, bytes.len() as int));
    if a + 1 == bytes.len() {
        is_char_boundary_start_end_of_seq(bytes);
    } else {
        assert(suf2[0] == bytes[a + 1]);
        assert(valid_first_scalar(suf2));
        assert(!is_continuation_byte(bytes[a + 1]));
        is_char_boundary_iff_not_is_continuation_byte(bytes, a + 1);
    }
}

/// A run of ASCII bytes starting at a character boundary ends at one.
proof fn lemma_ascii_run_boundary(bytes: Seq<u8>, a: int, b: int)
    requires
        valid_utf8(bytes),
        0 <= a <= b <= bytes.len(),
        is_char_boundary(bytes, a),
        forall|k: int| a <= k < b ==> #[trigger] bytes[k] < 0x80,
    ensures
        is_char_boundary(bytes, b),
    decreases b - a,
{
    if a < b {
        lemma_ascii_step(bytes, a);
        lemma_ascii_run_boundary(bytes, a + 1, b);
    }
}

/// The characters of the source text between two byte indices that fall on
/// character boundaries, as an owned string.
fn substring(input: &str, a: usize, b: usize) -> (r: String)
    requires
        a <= b <= input.spec_bytes().len(),
        is_char_boundary(input.spec_bytes(), a as int),
        is_char_boundary(input.spec_bytes(), b as int),
    ensures
        r@ == decode_utf8(input.spec_bytes().subrange(a as int, b as int)),
{
    let ghost bytes = input.spec_bytes();
    let ghost len = bytes.len() as int;
    proof {
        encode_utf8_valid_utf8(input@);
        valid_utf8_split(bytes, a as int);
    }
    let (_, rest) = input.split_at(a);
    let ghost suf = bytes.subrange(a as int, len);
    proof {
        assert(rest.spec_bytes() =~= suf);
        if (b as int) == len {
            is_char_boundary_start_end_of_seq(suf);
            assert(suf.len() == len - a);
        } else {
            is_char_boundary_iff_not_is_continuation_byte(bytes, b as int);
            is_char_boundary_iff_not_is_continuation_byte(suf, b - a);
            assert(suf[b - a] == bytes[b as int]);
        }
        assert(is_char_boundary(rest.spec_bytes(), (b - a) as int));
    }
    let (mid, _) = rest.split_at(b - a);
    proof {
        assert(mid.spec_bytes() =~= bytes.subrange(a as int, b as int));
        encode_utf8_decode_utf8(mid@);
        assert(decode_utf8(bytes.subrange(a as int, b as int)) == mid@);
    }
    mid.to_owned()
}

/// The escape classes that may follow a backslash inside a string.
enum Escapes {
    Quotation,
    ReverseSolidus,
    Solidus,
    Backspace,
    FormFeed,
    NewLine,
    CarriageReturn,
    HorizontalTab,
    HexadecimalDigits,
}

/// A raw token match: the kind, the position reached after the match
/// (line/column/byte index), and the decoded value for literal kinds.
struct Match {
    kind: TokenType,
    line: usize,
    column: usize,
    index: usize,
    value: Option<String>,
}

/// Maps a single punctuator byte to its token kind.
fn map_punctuator_tokens(c: u8) -> (r: Option<TokenType>)
    ensures
        r == spec_punctuator(c),
{
    if c == 123 {
        Some(TokenType::LeftBrace)
    } else if c == 125 {
        Some(TokenType::RightBrace)
    } else if c == 91 {
        Some(TokenType::LeftBracket)
    } else if c == 93 {
        Some(TokenType::RightBracket)
    } else if c == 58 {
        Some(TokenType::Colon)
    } else if c == 44 {
        Some(TokenType::Comma)
    } else {
        None
    }
}

/// Maps the byte after a backslash to its escape class.
fn map_escapes(c: u8) -> (r: Option<Escapes>)
    ensures
        r is Some <==> (is_simple_escape(c) || c == 117),
        (r matches Some(e) && e is HexadecimalDigits) <==> c == 117,
{
    if c == 34 {
        Some(Escapes::Quotation)
    } else if c == 92 {
        Some(Escapes::ReverseSolidus)
    } else if c == 47 {
        Some(Escapes::Solidus)
    } else if c == 98 {
        Some(Escapes::Backspace)
    } else if c == 102 {
        Some(Escapes::FormFeed)
    } else if c == 110 {
        Some(Escapes::NewLine)
    } else if c == 114 {
        Some(Escapes::CarriageReturn)
    } else if c == 116 {
        Some(Escapes::HorizontalTab)
    } else if c == 117 {
        Some(Escapes::HexadecimalDigits)
    } else {
        None
    }
}

/// Consumes one whitespace element at `index`, returning the position after
/// it, or `None` when the byte there is not whitespace.
fn parse_whitespace(input: &str, index: usize, line: usize, column: usize) -> (r: Option<Position>)
    requires
        index < input.spec_bytes().len(),
        line < usize::MAX,
        column < usize::MAX,
        index + 2 <= usize::MAX,
    ensures
        match r {
            Some(p) => spec_whitespace(
                input.spec_bytes(),
                index as int,
                line as int,
                column as int,
            ) == Some(p.deep_view()),
            None => spec_whitespace(
                input.spec_bytes(),
                index as int,
                line as int,
                column as int,
            ) is None,
        },
{
    let bytes = input.as_bytes();
    let c = bytes[index];
    if c == 13 {
        if index + 1 < bytes.len() && bytes[index + 1] == 10 {
            Some(Position { index: index + 2, line: line + 1, column: column + 1 })
        } else {
            Some(Position { index: index + 1, line: line + 1, column: column + 1 })
        }
    } else if c == 10 {
        Some(Position { index: index + 1, line: line + 1, column: 1 })
    } else if c == 9 || c == 32 {
        Some(Position { index: index + 1, line, column: column + 1 })
    } else {
        None
    }
}

/// Matches a single-character punctuator token at `index`.
fn parse_char(input: &str, index: usize, line: usize, column: usize) -> (r: Option<Match>)
    requires
        index < input.spec_bytes().len(),
        column < usize::MAX,
    ensures
        match r {
            Some(m) => {
                &&& spec_punctuator(input.spec_bytes()[index as int]) == Some(m.kind)
                &&& m.value is None
                &&& m.line == line
                &&& m.column == column + 1
                &&& m.index == index + 1
            },
            None => spec_punctuator(input.spec_bytes()[index as int]) is None,
        },
{
    let bytes = input.as_bytes();
    let c = bytes[index];
    match map_punctuator_tokens(c) {
        Some(t) => Some(
            Match { kind: t, line, column: column + 1, index: index + 1, value: None },
        ),
        None => None,
    }
}

/// A byte sequence that matches an ASCII character sequence byte for byte
/// decodes back to exactly those characters.
proof fn lemma_ascii_decode(chars: Seq<char>, bs: Seq<u8>)
    requires
        is_ascii_chars(chars),
        bs.len() == chars.len(),
        forall|k: int| 0 <= k < chars.len() ==> bs[k] == #[trigger] chars[k] as u8,
    ensures
        decode_utf8(bs) == chars,
{
    is_ascii_chars_encode_utf8(chars);
    assert(encode_utf8(chars) =~= bs);
    encode_utf8_decode_utf8(chars);
}

/// Matches one of the keywords `true`, `null`, `false` at `index`.
fn parse_keyword(input: &str, index: usize, line: usize, column: usize) -> (r: Option<Match>)
    requires
        index < input.spec_bytes().len(),
        input.spec_bytes().len() < usize::MAX,
        column as int <= index as int + 1,
    ensures
        match r {
            Some(m) => {
                &&& spec_keyword(input.spec_bytes(), index as int) == Some(
                    (m.kind, m.index as int),
                )
                &&& m.line == line
                &&& m.column as int == column as int + (m.index as int - index as int)
                &&& m.value matches Some(v) && v@ == decode_utf8(
                    input.spec_bytes().subrange(index as int, m.index as int),
                )
            },
            None => spec_keyword(input.spec_bytes(), index as int) is None,
        },
{
    let ghost bs = input.spec_bytes();
    let bytes = input.as_bytes();
    let n = bytes.len();
    if n - index >= 4 && bytes[index] == 116 && bytes[index + 1] == 114 && bytes[index + 2] == 117
        && bytes[index + 3] == 101 {  // true
        proof {
            reveal_strlit("true");
            let chars = "true"@;
            assert(is_ascii_chars(chars)) by {
                assert forall|k: int| 0 <= k < chars.len() implies '\0' <= #[trigger] chars[k]
                    <= '\u{7f}' by {}
            }
            lemma_ascii_decode(chars, bs.subrange(index as int, index as int + 4));
        }
        Some(
            Match {
                kind: TokenType::True,
                line,
                column: column + 4,
                index: index + 4,
                value: Some("true".to_owned()),
            },
        )
    } else if n - index >= 4 && bytes[index] == 110 && bytes[index + 1] == 117 && bytes[index + 2]
        == 108 && bytes[index + 3] == 108 {  // null
        proof {
            reveal_strlit("null");
            let chars = "null"@;
            assert(is_ascii_chars(chars)) by {
                assert forall|k: int| 0 <= k < chars.len() implies '\0' <= #[trigger] chars[k]
                    <= '\u{7f}' by {}
            }
            lemma_ascii_decode(chars, bs.subrange(index as int, index as int + 4));
        }
        Some(
            Match {
                kind: TokenType::Null,
                line,
                column: column + 4,
                index: index + 4,
                value: Some("null".to_owned()),
            },
        )
    } else if n - index >= 5 && bytes[index] == 102 && bytes[index + 1] == 97 && bytes[index + 2]
        == 108 && bytes[index + 3] == 115 && bytes[index + 4] == 101 {  // false
        proof {
            reveal_strlit("false");
            let chars = "false"@;
            assert(is_ascii_chars(chars)) by {
                assert forall|k: int| 0 <= k < chars.len() implies '\0' <= #[trigger] chars[k]
                    <= '\u{7f}' by {}
            }
            lemma_ascii_decode(chars, bs.subrange(index as int, index as int + 5));
        }
        Some(
            Match {
                kind: TokenType::False,
                line,
                column: column + 5,
                index: index + 5,
                value: Some("false".to_owned()),
            },
        )
    } else {
        None
    }
}

/// Tests whether a byte is an ASCII hexadecimal digit.
fn hex_digit(c: u8) -> (r: bool)
    ensures
        r == is_hex_digit(c),
{
    (48 <= c && c <= 57) || (97 <= c && c <= 102) || (65 <= c && c <= 70)
}

/// Matches a string token at `index` (at its opening quote). The value is
/// the text between the quotes, with escape sequences kept as written.
fn parse_string(input: &str, index: usize, line: usize, column: usize) -> (r: Option<Match>)
    requires
        index < input.spec_bytes().len(),
        input.spec_bytes().len() < usize::MAX,
        column as int <= index as int + 1,
    ensures
        match r {
            Some(m) => {
                &&& spec_match_string(input.spec_bytes(), index as int) == Some(m.index as int)
                &&& m.kind == TokenType::String
                &&& m.line == line
                &&& m.column as int == column as int + (m.index as int - index as int)
                &&& m.value matches Some(v) && v@ == decode_utf8(
                    input.spec_bytes().subrange(index as int + 1, m.index as int - 1),
                )
            },
            None => spec_match_string(input.spec_bytes(), index as int) is None,
        },
{
    let ghost bs = input.spec_bytes();
    let bytes = input.as_bytes();
    let n = bytes.len();
    if bytes[index] != 34 {
        return None;
    }
    let mut j = index + 1;
    loop
        invariant
            index as int + 1 <= j as int <= n as int,
            n == bs.len(),
            n < usize::MAX,
            bytes@ == bs,
            input.spec_bytes() == bs,
            index < n,
            bs[index as int] == 34,
            column as int <= index as int + 1,
            spec_string_end(bs, index as int + 1) == spec_string_end(bs, j as int),
        decreases n - j,
    {
        if j >= n {
            return None;
        }
        let c = bytes[j];
        if c == 34 {  // closing quote
            proof {
                assert(spec_string_end(bs, j as int) == Some(j as int + 1));
                encode_utf8_valid_utf8(input@);
                is_char_boundary_iff_not_is_continuation_byte(bs, index as int);
                lemma_ascii_step(bs, index as int);
                is_char_boundary_iff_not_is_continuation_byte(bs, j as int);
            }
            let value = substring(input, index + 1, j);
            return Some(
                Match {
                    kind: TokenType::String,
                    line,
                    column: column + (j + 1 - index),
                    index: j + 1,
                    value: Some(value),
                },
            );
        } else if c == 92 {  // backslash
            if n - j < 2 {
                return None;
            }
            match map_escapes(bytes[j + 1]) {
                Some(Escapes::HexadecimalDigits) => {
                    if n - j >= 6 && hex_digit(bytes[j + 2]) && hex_digit(bytes[j + 3]) && hex_digit(
                        bytes[j + 4],
                    ) && hex_digit(bytes[j + 5]) {
                        j = j + 6;
                    } else {
                        return None;
                    }
                },
                Some(_) => {
                    j = j + 2;
                },
                None => {
                    return None;
                },
            }
        } else {
            j = j + 1;
        }
    }
}

/// Scans past the run of decimal digits starting at `start`.
fn digit_run(input: &str, start: usize) -> (r: usize)
    requires
        start <= input.spec_bytes().len(),
    ensures
        r as int == digit_run_end(input.spec_bytes(), start as int),
        start <= r <= input.spec_bytes().len(),
{
    let ghost bs = input.spec_bytes();
    let bytes = input.as_bytes();
    let n = bytes.len();
    let mut j = start;
    while j < n && 48 <= bytes[j] && bytes[j] <= 57
        invariant
            start <= j <= n,
            n == bs.len(),
            bytes@ == bs,
            digit_run_end(bs, start as int) == digit_run_end(bs, j as int),
        decreases n - j,
    {
        j = j + 1;
    }
    j
}

/// Matches a number token at `index`, taking the longest prefix the number
/// grammar accepts.
#[verifier::rlimit(60)]
fn parse_number(input: &str, index: usize, line: usize, column: usize) -> (r: Option<Match>)
    requires
        index < input.spec_bytes().len(),
        input.spec_bytes().len() < usize::MAX,
        column as int <= index as int + 1,
    ensures
        match r {
            Some(m) => {
                &&& spec_number_end(input.spec_bytes(), index as int) == Some(m.index as int)
                &&& m.kind == TokenType::Number
                &&& m.line == line
                &&& m.column as int == column as int + (m.index as int - index as int)
                &&& m.value matches Some(v) && v@ == decode_utf8(
                    input.spec_bytes().subrange(index as int, m.index as int),
                )
            },
            None => spec_number_end(input.spec_bytes(), index as int) is None,
        },
{
    let ghost bs = input.spec_bytes();
    let bytes = input.as_bytes();
    let n = bytes.len();
    let m = if bytes[index] == 45 {
        index + 1
    } else {
        index
    };
    if m >= n || !(48 <= bytes[m] && bytes[m] <= 57) {
        return None;
    }
    proof {
        lemma_digit_run_end(bs, m as int);
    }
    let int_end = if bytes[m] == 48 {
        m + 1
    } else {
        digit_run(input, m)
    };
    let has_frac = int_end + 1 < n && bytes[int_end] == 46 && 48 <= bytes[int_end + 1] && bytes[
        int_end + 1
    ] <= 57;
    let frac_end = if has_frac {
        proof {
            lemma_digit_run_end(bs, int_end as int + 2);
        }
        digit_run(input, int_end + 2)
    } else {
        int_end
    };
    let mut exp_end = frac_end;
    let ghost spec_s: int = 0;
    if frac_end < n && (bytes[frac_end] == 101 || bytes[frac_end] == 69) {
        let s = if frac_end + 1 < n && (bytes[frac_end + 1] == 43 || bytes[frac_end + 1] == 45) {
            frac_end + 2
        } else {
            frac_end + 1
        };
        proof {
            spec_s = s as int;
        }
        if s < n && 48 <= bytes[s] && bytes[s] <= 57 {
            proof {
                lemma_digit_run_end(bs, s as int + 1);
            }
            exp_end = digit_run(input, s + 1);
        }
    }
    let ghost e = exp_end as int;
    let ghost i = index as int;
    proof {
        assert(spec_number_end(bs, i) == Some(e));
        // every byte of the match is ASCII, so the span ends on boundaries
        assert forall|k: int| i <= k < e implies #[trigger] bs[k] < 0x80 by {
            if k == i && bs[i] == 45 {
            } else if m <= k < int_end {
                if bs[m as int] != 48 {
                    assert(is_digit(bs[k]));
                }
            } else if int_end <= k < frac_end {
                if k == int_end {
                } else if k == int_end + 1 {
                } else {
                    assert(is_digit(bs[k]));
                }
            } else if frac_end <= k < e {
                if k == frac_end {
                } else if k == spec_s - 1 && k > frac_end {
                } else if k == spec_s {
                } else {
                    assert(is_digit(bs[k]));
                }
            }
        }
        encode_utf8_valid_utf8(input@);
        is_char_boundary_iff_not_is_continuation_byte(bs, i);
        lemma_ascii_run_boundary(bs, i, e);
    }
    let value = substring(input, index, exp_end);
    Some(
        Match {
            kind: TokenType::Number,
            line,
            column: column + (exp_end - index),
            index: exp_end,
            value: Some(value),
        },
    )
}

/// The model of a tokenizer outcome.
pub open spec fn tokens_opt_model(r: Option<Vec<Token>>) -> Option<Seq<TokenModel>> {
    match r {
        Some(v) => Some(v.deep_view()),
        None => None,
    }
}

/// Scans the whole input into its token sequence, starting at line 1,
/// column 1. Returns `None` exactly when some position of the input matches
/// none of the five lexical rules (whitespace, punctuator, keyword, string,
/// number), which makes the whole scan fail.
pub fn tokenize(input: &str) -> (r: Option<Vec<Token>>)
    requires
        input.spec_bytes().len() < usize::MAX,
    ensures
        tokens_opt_model(r) == spec_tokenize(input.spec_bytes()),
{
    let ghost bs = input.spec_bytes();
    let bytes = input.as_bytes();
    let n = bytes.len();
    let mut line: usize = 1;
    let mut column: usize = 1;
    let mut index: usize = 0;
    let mut tokens: Vec<Token> = Vec::new();
    while index < n
        invariant
            n == bs.len(),
            n < usize::MAX,
            input.spec_bytes() == bs,
            index <= n,
            1 <= line && line as int <= index as int + 1,
            1 <= column && column as int <= index as int + 1,
            spec_tokenize(bs) == (match spec_tokenize_from(
                bs,
                index as int,
                line as int,
                column as int,
            ) {
                Some(rest) => Some(tokens.deep_view() + rest),
                None => None::<Seq<TokenModel>>,
            }),
        decreases n - index,
    {
        let ghost i = index as int;
        let ghost l = line as int;
        let ghost c = column as int;
        if let Some(pos) = parse_whitespace(input, index, line, column) {
            proof {
                assert(spec_tokenize_from(bs, i, l, c) == spec_tokenize_from(
                    bs,
                    pos.index as int,
                    pos.line as int,
                    pos.column as int,
                ));
            }
            line = pos.line;
            column = pos.column;
            index = pos.index;
        } else {
            let matched = if let Some(m) = parse_char(input, index, line, column) {
                Some(m)
            } else if let Some(m) = parse_keyword(input, index, line, column) {
                Some(m)
            } else if let Some(m) = parse_string(input, index, line, column) {
                Some(m)
            } else if let Some(m) = parse_number(input, index, line, column) {
                Some(m)
            } else {
                None
            };
            match matched {
                Some(m) => {
                    let tok = Token {
                        kind: m.kind,
                        value: m.value,
                        start: Position { line, column, index },
                        end: Position { line: m.line, column: m.column, index: m.index },
                    };
                    proof {
                        assert(spec_token_at(bs, i, l, c) == Some(tok.deep_view()));
                        lemma_token_at_bounds(bs, i, l, c);
                    }
                    let ghost prev = tokens.deep_view();
                    let ghost t = tok.deep_view();
                    tokens.push(tok);
                    proof {
                        assert(tokens.deep_view() =~= prev + seq![t]);
                        match spec_tokenize_from(
                            bs,
                            t.end.index,
                            t.end.line,
                            t.end.column,
                        ) {
                            Some(rest) => {
                                assert((prev + seq![t]) + rest =~= prev + (seq![t] + rest));
                            },
                            None => {},
                        }
                    }
                    line = m.line;
                    column = m.column;
                    index = m.index;
                },
                None => {
                    proof {
                        assert(spec_token_at(bs, i, l, c) is None);
                        assert(spec_tokenize_from(bs, i, l, c) is None);
                    }
                    return None;
                },
            }
        }
    }
    proof {
        assert(spec_tokenize_from(bs, index as int, line as int, column as int) == Some(
            Seq::<TokenModel>::empty(),
        ));
        assert(tokens.deep_view() + Seq::<TokenModel>::empty() =~= tokens.deep_view());
    }
    Some(tokens)
}

} // verus!
