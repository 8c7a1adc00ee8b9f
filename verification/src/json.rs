//! The JSON parser of `std.parseJson`.
//!
//! The grammar is that of RFC 8259. An error is reported at a line and a
//! column (both counted from 0); a number is kept as the text it was
//! written with.

use vstd::prelude::*;
use crate::value::{Value, ValueModel, view_items, view_fields, lemma_view_array, lemma_view_object};
use crate::text::{is_scalar, char_from_u32, chars_of, string_from_chars, debug_str, debug_str_text, concat_str};
use crate::format::{decimal_text, int_digits};
use crate::error::{EvalErrorKind, is_other_error, other_error};
use crate::normalize::{normalize, normalize_model};
use crate::manifest::{json_quote, json_escape_body, json_escape_char, hex_digit_lower};

verus! {

/// Why a text is not JSON.
#[derive(Clone, Debug)]
pub enum JsonErrorKind {
    ExpectedValue,
    ExpectedEof,
    Expected1(char),
    Expected2(char, char),
    InvalidNumber,
    NumberOverflow,
    UnfinishedString,
    InvalidChrInString,
    InvalidStringEscape,
    ExpectedObjectKey,
    RepeatedFieldName(String),
}

/// The model of a [`JsonErrorKind`].
pub enum JsonErrorModel {
    ExpectedValue,
    ExpectedEof,
    Expected1(char),
    Expected2(char, char),
    InvalidNumber,
    NumberOverflow,
    UnfinishedString,
    InvalidChrInString,
    InvalidStringEscape,
    ExpectedObjectKey,
    RepeatedFieldName(Seq<char>),
}

impl View for JsonErrorKind {
    type V = JsonErrorModel;

    open spec fn view(&self) -> JsonErrorModel {
        match self {
            JsonErrorKind::ExpectedValue => JsonErrorModel::ExpectedValue,
            JsonErrorKind::ExpectedEof => JsonErrorModel::ExpectedEof,
            JsonErrorKind::Expected1(c) => JsonErrorModel::Expected1(*c),
            JsonErrorKind::Expected2(c1, c2) => JsonErrorModel::Expected2(*c1, *c2),
            JsonErrorKind::InvalidNumber => JsonErrorModel::InvalidNumber,
            JsonErrorKind::NumberOverflow => JsonErrorModel::NumberOverflow,
            JsonErrorKind::UnfinishedString => JsonErrorModel::UnfinishedString,
            JsonErrorKind::InvalidChrInString => JsonErrorModel::InvalidChrInString,
            JsonErrorKind::InvalidStringEscape => JsonErrorModel::InvalidStringEscape,
            JsonErrorKind::ExpectedObjectKey => JsonErrorModel::ExpectedObjectKey,
            JsonErrorKind::RepeatedFieldName(name) => JsonErrorModel::RepeatedFieldName(name@),
        }
    }
}

/// A parse error: where (line and column, from 0) and why.
#[derive(Clone, Debug)]
pub struct JsonParseError {
    pub line: usize,
    pub column: usize,
    pub kind: JsonErrorKind,
}

/// An error of the model: why, and at which character index.
pub type ErrAt = (JsonErrorModel, int);

/// Whitespace between JSON tokens.
pub open spec fn is_json_ws(c: char) -> bool {
    c == '\t' || c == '\n' || c == '\r' || c == ' '
}

/// The index of the first non-whitespace character at or after `p`.
pub open spec fn skip_ws(s: Seq<char>, p: int) -> int
    decreases s.len() - p,
{
    if 0 <= p < s.len() && is_json_ws(s[p]) {
        skip_ws(s, p + 1)
    } else {
        p
    }
}

/// Line and column (from 0) of the character at index `p`: a line feed
/// starts a new line, every other character takes one column.
pub open spec fn line_col(s: Seq<char>, p: int) -> (int, int)
    decreases p,
{
    if p <= 0 {
        (0, 0)
    } else {
        let (l, c) = line_col(s, p - 1);
        if s[p - 1] == '\n' {
            (l + 1, 0)
        } else {
            (l, c + 1)
        }
    }
}

/// Whether the character at `p` is `c`.
pub open spec fn char_at(s: Seq<char>, p: int, c: char) -> bool {
    0 <= p < s.len() && s[p] == c
}

/// Whether `s` continues at `p` with `lit`.
pub open spec fn has_prefix_at(s: Seq<char>, p: int, lit: Seq<char>) -> bool {
    0 <= p && p + lit.len() <= s.len() && s.subrange(p, p + lit.len()) == lit
}

/// A decimal digit.
pub open spec fn is_digit(c: char) -> bool {
    '0' <= c && c <= '9'
}

/// Whether the character at `p` is a decimal digit.
pub open spec fn digit_at(s: Seq<char>, p: int) -> bool {
    0 <= p < s.len() && is_digit(s[p])
}

/// The end of the run of digits that starts at `p`.
pub open spec fn digits_end(s: Seq<char>, p: int) -> int
    decreases s.len() - p,
{
    if digit_at(s, p) {
        digits_end(s, p + 1)
    } else {
        p
    }
}

/// The end of the integer part of a number at `p`, if it is well formed.
pub open spec fn int_part_end(s: Seq<char>, p: int) -> Option<int> {
    if !digit_at(s, p) {
        None
    } else if s[p] == '0' {
        if digit_at(s, p + 1) {
            None
        } else {
            Some(p + 1)
        }
    } else {
        Some(digits_end(s, p))
    }
}

/// The end of the fraction (if any) that starts at `p`, if it is well formed.
pub open spec fn frac_part_end(s: Seq<char>, p: int) -> Option<int> {
    if char_at(s, p, '.') {
        if digit_at(s, p + 1) {
            Some(digits_end(s, p + 1))
        } else {
            None
        }
    } else {
        Some(p)
    }
}

/// The end of the exponent (if any) that starts at `p`, if it is well formed.
pub open spec fn exp_part_end(s: Seq<char>, p: int) -> Option<int> {
    if char_at(s, p, 'e') || char_at(s, p, 'E') {
        let e1 = if char_at(s, p + 1, '-') || char_at(s, p + 1, '+') {
            p + 2
        } else {
            p + 1
        };
        if digit_at(s, e1) {
            Some(digits_end(s, e1))
        } else {
            None
        }
    } else {
        Some(p)
    }
}

/// Scans a number at `p`: `Ok(None)` where none starts there, `Ok(Some(end))`
/// for a number that ends at `end`, an error for a malformed one.
pub open spec fn lex_number(s: Seq<char>, p: int) -> Result<Option<int>, ErrAt> {
    let p1 = if char_at(s, p, '-') {
        p + 1
    } else {
        p
    };
    if p1 == p && !digit_at(s, p) {
        Ok(None)
    } else {
        match int_part_end(s, p1) {
            None => Err((JsonErrorModel::InvalidNumber, p)),
            Some(a) => match frac_part_end(s, a) {
                None => Err((JsonErrorModel::InvalidNumber, p)),
                Some(b) => match exp_part_end(s, b) {
                    None => Err((JsonErrorModel::InvalidNumber, p)),
                    Some(c) => Ok(Some(c)),
                },
            },
        }
    }
}

/// The value of a hexadecimal digit.
pub open spec fn hex_val(c: char) -> Option<u32> {
    if '0' <= c && c <= '9' {
        Some((c as u32 - 48) as u32)
    } else if 'a' <= c && c <= 'f' {
        Some((c as u32 - 97 + 10) as u32)
    } else if 'A' <= c && c <= 'F' {
        Some((c as u32 - 65 + 10) as u32)
    } else {
        None
    }
}

/// The UTF-16 code unit written as four hexadecimal digits at `i`.
pub open spec fn hex4(s: Seq<char>, i: int) -> Option<u32> {
    if 0 <= i && i + 4 <= s.len() {
        match (hex_val(s[i]), hex_val(s[i + 1]), hex_val(s[i + 2]), hex_val(s[i + 3])) {
            (Some(d0), Some(d1), Some(d2), Some(d3)) => Some((d0 * 4096 + d1 * 256 + d2 * 16 + d3) as u32),
            _ => None,
        }
    } else {
        None
    }
}

/// The character that a surrogate pair encodes.
pub open spec fn surrogate_pair_value(hi: u32, lo: u32) -> u32 {
    (0x10000 + (hi - 0xD800) * 1024 + (lo - 0xDC00)) as u32
}

/// A control character of ASCII.
pub open spec fn is_ascii_control(c: char) -> bool {
    c <= '\u{1f}' || c == '\u{7f}'
}

/// One step of scanning the content of a string at index `i`.
pub enum StrStep {
    /// The closing quote.
    Close,
    /// A character of the content, and the index after what encodes it.
    Char(char, int),
    /// An error, and where it is.
    Fail(JsonErrorModel, int),
}

/// What the text at index `i` of a string whose content starts at `start`
/// is: the closing quote, a (possibly escaped) character, or an error.
pub open spec fn str_step(s: Seq<char>, start: int, i: int) -> StrStep {
    if i < 0 || i >= s.len() {
        StrStep::Fail(JsonErrorModel::UnfinishedString, start)
    } else if s[i] == '"' {
        StrStep::Close
    } else if s[i] == '\\' {
        if i + 1 >= s.len() {
            StrStep::Fail(JsonErrorModel::UnfinishedString, start)
        } else {
            let e = s[i + 1];
            if e == '"' || e == '\\' || e == '/' {
                StrStep::Char(e, i + 2)
            } else if e == 'b' {
                StrStep::Char('\u{8}', i + 2)
            } else if e == 'f' {
                StrStep::Char('\u{c}', i + 2)
            } else if e == 'n' {
                StrStep::Char('\n', i + 2)
            } else if e == 'r' {
                StrStep::Char('\r', i + 2)
            } else if e == 't' {
                StrStep::Char('\t', i + 2)
            } else if e == 'u' {
                match hex4(s, i + 2) {
                    None => StrStep::Fail(JsonErrorModel::InvalidStringEscape, i),
                    Some(cu1) => if 0xD800 <= cu1 <= 0xDFFF && char_at(s, i + 6, '\\') && char_at(s, i + 7, 'u') {
                        match hex4(s, i + 8) {
                            None => StrStep::Fail(JsonErrorModel::InvalidStringEscape, i),
                            Some(cu2) => if cu1 <= 0xDBFF && 0xDC00 <= cu2 <= 0xDFFF {
                                StrStep::Char(surrogate_pair_value(cu1, cu2) as char, i + 12)
                            } else {
                                StrStep::Fail(JsonErrorModel::InvalidStringEscape, i)
                            },
                        }
                    } else if is_scalar(cu1) {
                        StrStep::Char(cu1 as char, i + 6)
                    } else {
                        StrStep::Fail(JsonErrorModel::InvalidStringEscape, i)
                    },
                }
            } else {
                StrStep::Fail(JsonErrorModel::InvalidStringEscape, i)
            }
        }
    } else if !is_ascii_control(s[i]) {
        StrStep::Char(s[i], i + 1)
    } else {
        StrStep::Fail(JsonErrorModel::InvalidChrInString, i)
    }
}

/// A step over a character moves forward over no line feed; a failing step
/// is at the start or at `i`.
pub proof fn lemma_str_step(s: Seq<char>, start: int, i: int)
    ensures
        str_step(s, start, i) matches StrStep::Char(_, j) ==> {
            &&& 0 <= i < j <= s.len()
            &&& forall|k: int| i <= k < j ==> s[k] != '\n'
        },
        str_step(s, start, i) matches StrStep::Close ==> char_at(s, i, '"'),
        str_step(s, start, i) matches StrStep::Fail(_, at) ==> at == start || at == i,
{
    if 0 <= i + 1 < s.len() && s[i] == '\\' && s[i + 1] == 'u' {
        if let Some(cu1) = hex4(s, i + 2) {
            assert(hex_val(s[i + 2]) is Some && hex_val(s[i + 3]) is Some && hex_val(s[i + 4]) is Some && hex_val(s[i + 5]) is Some);
            if 0xD800 <= cu1 <= 0xDFFF && char_at(s, i + 6, '\\') && char_at(s, i + 7, 'u') {
                if let Some(cu2) = hex4(s, i + 8) {
                    assert(hex_val(s[i + 8]) is Some && hex_val(s[i + 9]) is Some && hex_val(s[i + 10]) is Some && hex_val(s[i + 11]) is Some);
                }
            }
        }
    }
}

/// Scans the rest of a string whose content starts at `start`, from index
/// `i`, with `acc` the characters decoded so far. Gives the content and the
/// index after the closing quote.
pub open spec fn str_body(s: Seq<char>, start: int, i: int, acc: Seq<char>) -> Result<(Seq<char>, int), ErrAt>
    decreases s.len() - i,
{
    match str_step(s, start, i) {
        StrStep::Close => Ok((acc, i + 1)),
        StrStep::Fail(k, at) => Err((k, at)),
        StrStep::Char(c, j) => {
            proof {
                lemma_str_step(s, start, i);
            }
            str_body(s, start, j, acc.push(c))
        },
    }
}

/// Scans a string at `p`: `Ok(None)` where none starts there, else its
/// content and the index after it.
pub open spec fn lex_string(s: Seq<char>, p: int) -> Result<Option<(Seq<char>, int)>, ErrAt> {
    if char_at(s, p, '"') {
        match str_body(s, p + 1, p + 1, Seq::empty()) {
            Err(e) => Err(e),
            Ok((v, q)) => Ok(Some((v, q))),
        }
    } else {
        Ok(None)
    }
}

/// Whether an object's fields include `key`.
pub open spec fn has_key(fields: Seq<(Seq<char>, ValueModel)>, key: Seq<char>) -> bool {
    exists|i: int| 0 <= i < fields.len() && #[trigger] fields[i].0 == key
}

/// Parses a value at `p` (after whitespace): the value and the index after
/// it and the whitespace that follows.
pub open spec fn parse_value(s: Seq<char>, p: int) -> Result<(ValueModel, int), ErrAt>
    decreases s.len() - p, 0int,
{
    if p < 0 || p >= s.len() {
        Err((JsonErrorModel::ExpectedValue, p))
    } else if has_prefix_at(s, p, seq!['n', 'u', 'l', 'l']) {
        Ok((ValueModel::Null, skip_ws(s, p + 4)))
    } else if has_prefix_at(s, p, seq!['f', 'a', 'l', 's', 'e']) {
        Ok((ValueModel::Bool(false), skip_ws(s, p + 5)))
    } else if has_prefix_at(s, p, seq!['t', 'r', 'u', 'e']) {
        Ok((ValueModel::Bool(true), skip_ws(s, p + 4)))
    } else {
        match lex_number(s, p) {
            Err(e) => Err(e),
            Ok(Some(q)) => Ok((ValueModel::Number(s.subrange(p, q)), skip_ws(s, q))),
            Ok(None) => match lex_string(s, p) {
                Err(e) => Err(e),
                Ok(Some((v, q))) => Ok((ValueModel::String(v), skip_ws(s, q))),
                Ok(None) => if s[p] == '[' {
                    let p1 = skip_ws(s, p + 1);
                    proof {
                        lemma_skip_ws_bounds(s, p + 1);
                    }
                    if char_at(s, p1, ']') {
                        Ok((ValueModel::Array(Seq::empty()), skip_ws(s, p1 + 1)))
                    } else {
                        parse_items(s, p1, Seq::empty())
                    }
                } else if s[p] == '{' {
                    let p1 = skip_ws(s, p + 1);
                    proof {
                        lemma_skip_ws_bounds(s, p + 1);
                    }
                    if char_at(s, p1, '}') {
                        Ok((ValueModel::Object(Seq::empty()), skip_ws(s, p1 + 1)))
                    } else {
                        parse_first_member(s, p1, Seq::empty())
                    }
                } else {
                    Err((JsonErrorModel::ExpectedValue, p))
                },
            },
        }
    }
}

/// Parses an item of an array at `p`, and the rest of the array;
/// `acc` holds the items before it.
pub open spec fn parse_items(s: Seq<char>, p: int, acc: Seq<ValueModel>) -> Result<(ValueModel, int), ErrAt>
    decreases s.len() - p, 1int,
{
    if p < 0 || p > s.len() {
        Err((JsonErrorModel::ExpectedValue, p))
    } else {
        match parse_value(s, p) {
            Err(e) => Err(e),
            Ok((v, q)) => if q <= p || q > s.len() {
                Err((JsonErrorModel::ExpectedValue, p))
            } else {
                after_item(s, acc, v, q)
            },
        }
    }
}

/// Continues an array after item `v`, which ends (with its whitespace) at `q`.
pub open spec fn after_item(s: Seq<char>, acc: Seq<ValueModel>, v: ValueModel, q: int) -> Result<(ValueModel, int), ErrAt>
    decreases s.len() - q, 2int,
{
    if q < 0 || q > s.len() {
        Err((JsonErrorModel::ExpectedValue, q))
    } else if char_at(s, q, ']') {
        Ok((ValueModel::Array(acc.push(v)), skip_ws(s, q + 1)))
    } else if char_at(s, q, ',') {
        proof {
            lemma_skip_ws_bounds(s, q + 1);
        }
        parse_items(s, skip_ws(s, q + 1), acc.push(v))
    } else {
        Err((JsonErrorModel::Expected2(']', ','), q))
    }
}

/// Parses a key and a `:` at `p` and then the rest of the object; `fields`
/// holds the fields before.
pub open spec fn parse_first_member(s: Seq<char>, p: int, fields: Seq<(Seq<char>, ValueModel)>) -> Result<(ValueModel, int), ErrAt>
    decreases s.len() - p, 1int,
{
    if p < 0 || p > s.len() {
        Err((JsonErrorModel::ExpectedObjectKey, p))
    } else {
        match lex_string(s, p) {
            Err(e) => Err(e),
            Ok(None) => Err((JsonErrorModel::ExpectedObjectKey, p)),
            Ok(Some((key, r))) => {
                let r1 = skip_ws(s, r);
                if !char_at(s, r1, ':') {
                    Err((JsonErrorModel::Expected1(':'), r1))
                } else {
                    proof {
                        lemma_lex_string_bounds(s, p);
                        lemma_skip_ws_bounds(s, r);
                        lemma_skip_ws_bounds(s, r1 + 1);
                    }
                    parse_members(s, skip_ws(s, r1 + 1), fields, key)
                }
            },
        }
    }
}

/// Parses the value of the field `key` at `p`, and the rest of the object.
pub open spec fn parse_members(
    s: Seq<char>,
    p: int,
    fields: Seq<(Seq<char>, ValueModel)>,
    key: Seq<char>,
) -> Result<(ValueModel, int), ErrAt>
    decreases s.len() - p, 1int,
{
    if p < 0 || p > s.len() {
        Err((JsonErrorModel::ExpectedValue, p))
    } else {
        match parse_value(s, p) {
            Err(e) => Err(e),
            Ok((v, q)) => if q <= p || q > s.len() {
                Err((JsonErrorModel::ExpectedValue, p))
            } else {
                after_member(s, fields, key, v, q)
            },
        }
    }
}

/// Continues an object after the value `v` of field `key`, which ends (with
/// its whitespace) at `q`.
pub open spec fn after_member(
    s: Seq<char>,
    fields: Seq<(Seq<char>, ValueModel)>,
    key: Seq<char>,
    v: ValueModel,
    q: int,
) -> Result<(ValueModel, int), ErrAt>
    decreases s.len() - q, 3int,
{
    if q < 0 || q > s.len() {
        Err((JsonErrorModel::ExpectedValue, q))
    } else if has_key(fields, key) {
        Err((JsonErrorModel::RepeatedFieldName(key), q))
    } else if char_at(s, q, '}') {
        Ok((ValueModel::Object(fields.push((key, v))), skip_ws(s, q + 1)))
    } else if char_at(s, q, ',') {
        proof {
            lemma_skip_ws_bounds(s, q + 1);
        }
        parse_first_member(s, skip_ws(s, q + 1), fields.push((key, v)))
    } else {
        Err((JsonErrorModel::Expected2('}', ','), q))
    }
}

/// The model of a JSON text: its value, or the first error and where it is.
pub open spec fn parse_json_model(s: Seq<char>) -> Result<ValueModel, ErrAt> {
    match parse_value(s, skip_ws(s, 0)) {
        Err(e) => Err(e),
        Ok((v, q)) => if q == s.len() {
            Ok(v)
        } else {
            Err((JsonErrorModel::ExpectedEof, q))
        },
    }
}

/// An array or object that is open while the parser reads one of its items.
pub enum FrameModel {
    /// An array, with the items read so far.
    Items(Seq<ValueModel>),
    /// An object, with the fields read so far and the key of the field whose
    /// value is being read.
    Members(Seq<(Seq<char>, ValueModel)>, Seq<char>),
}

/// How the open arrays and objects `stack` (innermost last) continue after
/// the value (or error) `r`, up to the end of the text.
pub open spec fn run(s: Seq<char>, stack: Seq<FrameModel>, r: Result<(ValueModel, int), ErrAt>) -> Result<ValueModel, ErrAt>
    decreases stack.len(),
{
    match r {
        Err(e) => Err(e),
        Ok((v, q)) => if stack.len() == 0 {
            if q == s.len() {
                Ok(v)
            } else {
                Err((JsonErrorModel::ExpectedEof, q))
            }
        } else {
            match stack.last() {
                FrameModel::Items(acc) => run(s, stack.drop_last(), after_item(s, acc, v, q)),
                FrameModel::Members(fields, key) => run(s, stack.drop_last(), after_member(s, fields, key, v, q)),
            }
        },
    }
}

/// Reading the rest of an array is reading its next item inside it.
pub proof fn lemma_run_items(s: Seq<char>, stack: Seq<FrameModel>, p: int, acc: Seq<ValueModel>)
    requires
        0 <= p <= s.len(),
    ensures
        run(s, stack, parse_items(s, p, acc)) == run(s, stack.push(FrameModel::Items(acc)), parse_value(s, p)),
{
    lemma_parse_value_pos(s, p);
    assert(stack.push(FrameModel::Items(acc)).drop_last() =~= stack);
}

/// Reading the rest of an object is reading its next field value inside it.
pub proof fn lemma_run_members(
    s: Seq<char>,
    stack: Seq<FrameModel>,
    p: int,
    fields: Seq<(Seq<char>, ValueModel)>,
    key: Seq<char>,
)
    requires
        0 <= p <= s.len(),
    ensures
        run(s, stack, parse_members(s, p, fields, key)) == run(
            s,
            stack.push(FrameModel::Members(fields, key)),
            parse_value(s, p),
        ),
{
    lemma_parse_value_pos(s, p);
    assert(stack.push(FrameModel::Members(fields, key)).drop_last() =~= stack);
}

/// Skipping whitespace moves forward and stays within the text.
pub proof fn lemma_skip_ws_bounds(s: Seq<char>, p: int)
    ensures
        skip_ws(s, p) >= p,
        0 <= p <= s.len() ==> skip_ws(s, p) <= s.len(),
        0 <= p <= s.len() ==> !(skip_ws(s, p) < s.len() && is_json_ws(s[skip_ws(s, p)])),
    decreases s.len() - p,
{
    if 0 <= p < s.len() && is_json_ws(s[p]) {
        lemma_skip_ws_bounds(s, p + 1);
    }
}

/// The end of a run of digits lies at or after its start, within the text.
pub proof fn lemma_digits_end_bounds(s: Seq<char>, p: int)
    ensures
        digits_end(s, p) >= p,
        0 <= p <= s.len() ==> digits_end(s, p) <= s.len(),
        forall|i: int| p <= i < digits_end(s, p) ==> is_digit(#[trigger] s[i]),
        0 <= p ==> !digit_at(s, digits_end(s, p)),
    decreases s.len() - p,
{
    if digit_at(s, p) {
        lemma_digits_end_bounds(s, p + 1);
    }
}

/// A scanned string ends after its start, within the text.
pub proof fn lemma_str_body_bounds(s: Seq<char>, start: int, i: int, acc: Seq<char>)
    ensures
        str_body(s, start, i, acc) matches Ok((_, q)) ==> i < q <= s.len(),
    decreases s.len() - i,
{
    lemma_str_step(s, start, i);
    if let StrStep::Char(c, j) = str_step(s, start, i) {
        lemma_str_body_bounds(s, start, j, acc.push(c));
    }
}

/// A scanned string ends after its start, within the text.
pub proof fn lemma_lex_string_bounds(s: Seq<char>, p: int)
    ensures
        lex_string(s, p) matches Ok(Some((_, q))) ==> p < q <= s.len(),
{
    lemma_str_body_bounds(s, p + 1, p + 1, Seq::empty());
}

/// A parsed value ends after its start, within the text.
pub proof fn lemma_parse_value_pos(s: Seq<char>, p: int)
    ensures
        parse_value(s, p) matches Ok((_, q)) ==> p < q <= s.len(),
    decreases s.len() - p, 0int,
{
    if 0 <= p < s.len() {
        lemma_skip_ws_bounds(s, p + 4);
        lemma_skip_ws_bounds(s, p + 5);
        lemma_skip_ws_bounds(s, p + 1);
        lemma_lex_string_bounds(s, p);
        lemma_lex_number_bounds(s, p);
        if let Ok(Some(q)) = lex_number(s, p) {
            lemma_skip_ws_bounds(s, q);
        }
        if let Ok(Some((_, q))) = lex_string(s, p) {
            lemma_skip_ws_bounds(s, q);
        }
        let p1 = skip_ws(s, p + 1);
        lemma_skip_ws_bounds(s, p1 + 1);
        if s[p] == '[' {
            lemma_parse_items_pos(s, p1, Seq::empty());
        } else if s[p] == '{' {
            lemma_parse_first_member_pos(s, p1, Seq::empty());
        }
    }
}

/// A parsed array rest ends after its start, within the text.
pub proof fn lemma_parse_items_pos(s: Seq<char>, p: int, acc: Seq<ValueModel>)
    ensures
        parse_items(s, p, acc) matches Ok((_, q)) ==> p < q <= s.len(),
    decreases s.len() - p, 1int,
{
    if 0 <= p <= s.len() {
        lemma_parse_value_pos(s, p);
        if let Ok((v, q)) = parse_value(s, p) {
            if p < q <= s.len() {
                lemma_after_item_pos(s, acc, v, q);
            }
        }
    }
}

/// A continued array ends after the item before, within the text.
pub proof fn lemma_after_item_pos(s: Seq<char>, acc: Seq<ValueModel>, v: ValueModel, q: int)
    ensures
        after_item(s, acc, v, q) matches Ok((_, r)) ==> q < r <= s.len(),
    decreases s.len() - q, 2int,
{
    if 0 <= q <= s.len() {
        lemma_skip_ws_bounds(s, q + 1);
        if char_at(s, q, ',') {
            lemma_parse_items_pos(s, skip_ws(s, q + 1), acc.push(v));
        }
    }
}

/// A parsed object rest ends after its start, within the text.
pub proof fn lemma_parse_first_member_pos(s: Seq<char>, p: int, fields: Seq<(Seq<char>, ValueModel)>)
    ensures
        parse_first_member(s, p, fields) matches Ok((_, q)) ==> p < q <= s.len(),
    decreases s.len() - p, 2int,
{
    if 0 <= p <= s.len() {
        lemma_lex_string_bounds(s, p);
        if let Ok(Some((key, r))) = lex_string(s, p) {
            lemma_skip_ws_bounds(s, r);
            let r1 = skip_ws(s, r);
            if char_at(s, r1, ':') {
                lemma_skip_ws_bounds(s, r1 + 1);
                lemma_parse_members_pos(s, skip_ws(s, r1 + 1), fields, key);
            }
        }
    }
}

/// A parsed field value and object rest end after their start, within the text.
pub proof fn lemma_parse_members_pos(s: Seq<char>, p: int, fields: Seq<(Seq<char>, ValueModel)>, key: Seq<char>)
    ensures
        parse_members(s, p, fields, key) matches Ok((_, q)) ==> p < q <= s.len(),
    decreases s.len() - p, 1int,
{
    if 0 <= p <= s.len() {
        lemma_parse_value_pos(s, p);
        if let Ok((v, q)) = parse_value(s, p) {
            if p < q <= s.len() {
                lemma_after_member_pos(s, fields, key, v, q);
            }
        }
    }
}

/// A continued object ends after the field before, within the text.
pub proof fn lemma_after_member_pos(
    s: Seq<char>,
    fields: Seq<(Seq<char>, ValueModel)>,
    key: Seq<char>,
    v: ValueModel,
    q: int,
)
    ensures
        after_member(s, fields, key, v, q) matches Ok((_, r)) ==> q < r <= s.len(),
    decreases s.len() - q, 3int,
{
    if 0 <= q <= s.len() {
        lemma_skip_ws_bounds(s, q + 1);
        if char_at(s, q, ',') {
            lemma_parse_first_member_pos(s, skip_ws(s, q + 1), fields.push((key, v)));
        }
    }
}

/// A scanned number ends after its start, within the text.
pub proof fn lemma_lex_number_bounds(s: Seq<char>, p: int)
    ensures
        lex_number(s, p) matches Ok(Some(q)) ==> p < q <= s.len(),
{
    let p1 = if char_at(s, p, '-') { p + 1 } else { p };
    lemma_digits_end_bounds(s, p1);
    if let Some(a) = int_part_end(s, p1) {
        lemma_digits_end_bounds(s, a + 1);
        if let Some(b) = frac_part_end(s, a) {
            lemma_digits_end_bounds(s, b + 1);
            lemma_digits_end_bounds(s, b + 2);
        }
    }
}

/// Line and column never exceed the index.
pub proof fn lemma_line_col_bounds(s: Seq<char>, p: int)
    ensures
        0 <= line_col(s, p).0 <= if p < 0 { 0 } else { p },
        0 <= line_col(s, p).1 <= if p < 0 { 0 } else { p },
    decreases p,
{
    if p > 0 {
        lemma_line_col_bounds(s, p - 1);
    }
}

/// Without a line feed between `p` and `q`, the line stays and the column
/// grows by the distance.
pub proof fn lemma_line_col_no_newline(s: Seq<char>, p: int, q: int)
    requires
        0 <= p <= q <= s.len(),
        forall|i: int| p <= i < q ==> s[i] != '\n',
    ensures
        line_col(s, q) == (line_col(s, p).0, line_col(s, p).1 + (q - p)),
    decreases q - p,
{
    if q > p {
        lemma_line_col_no_newline(s, p, q - 1);
    }
}

/// The JSON lexer: a position in the text, with its line and column.
struct Lexer<'a> {
    s: &'a [char],
    pos: usize,
    line: usize,
    column: usize,
}

impl<'a> Lexer<'a> {
    spec fn wf(&self) -> bool {
        &&& self.pos <= self.s@.len()
        &&& line_col(self.s@, self.pos as int) == (self.line as int, self.column as int)
    }

    /// An error at the current position.
    fn get_error(&self, kind: JsonErrorKind) -> (res: JsonParseError)
        ensures
            res.line == self.line,
            res.column == self.column,
            res.kind == kind,
    {
        JsonParseError { line: self.line, column: self.column, kind }
    }

    fn skip_spaces(&mut self)
        requires
            old(self).wf(),
        ensures
            final(self).wf(),
            final(self).s == old(self).s,
            final(self).pos == skip_ws(old(self).s@, old(self).pos as int),
            final(self).pos >= old(self).pos,
    {
        let ghost start = self.pos as int;
        let n = self.s.len();
        while self.pos < n && (self.s[self.pos] == '\t' || self.s[self.pos] == '\n' || self.s[self.pos] == '\r'
            || self.s[self.pos] == ' ')
            invariant
                self.wf(),
                self.s == old(self).s,
                n == self.s@.len(),
                skip_ws(self.s@, self.pos as int) == skip_ws(self.s@, start),
                self.pos >= start,
                start == old(self).pos,
            decreases n - self.pos,
        {
            proof {
                lemma_line_col_bounds(self.s@, self.pos + 1);
            }
            if self.s[self.pos] == '\n' {
                self.line += 1;
                self.column = 0;
            } else {
                self.column += 1;
            }
            self.pos += 1;
        }
    }

    fn eat_char(&mut self, c: char) -> (res: bool)
        requires
            old(self).wf(),
            c != '\n',
        ensures
            final(self).wf(),
            final(self).s == old(self).s,
            res == char_at(old(self).s@, old(self).pos as int, c),
            final(self).pos == old(self).pos + if res { 1int } else { 0int },
    {
        if self.pos < self.s.len() && self.s[self.pos] == c {
            proof {
                lemma_line_col_bounds(self.s@, self.pos + 1);
            }
            self.column += 1;
            self.pos += 1;
            true
        } else {
            false
        }
    }

    fn eat_digit_0_9(&mut self) -> (res: bool)
        requires
            old(self).wf(),
        ensures
            final(self).wf(),
            final(self).s == old(self).s,
            res == digit_at(old(self).s@, old(self).pos as int),
            final(self).pos == old(self).pos + if res { 1int } else { 0int },
    {
        if self.pos < self.s.len() && '0' <= self.s[self.pos] && self.s[self.pos] <= '9' {
            proof {
                lemma_line_col_bounds(self.s@, self.pos + 1);
            }
            self.column += 1;
            self.pos += 1;
            true
        } else {
            false
        }
    }

    fn eat_digit_1_9(&mut self) -> (res: bool)
        requires
            old(self).wf(),
        ensures
            final(self).wf(),
            final(self).s == old(self).s,
            res == (digit_at(old(self).s@, old(self).pos as int) && old(self).s@[old(self).pos as int] != '0'),
            final(self).pos == old(self).pos + if res { 1int } else { 0int },
    {
        if self.pos < self.s.len() && '1' <= self.s[self.pos] && self.s[self.pos] <= '9' {
            proof {
                lemma_line_col_bounds(self.s@, self.pos + 1);
            }
            self.column += 1;
            self.pos += 1;
            true
        } else {
            false
        }
    }

    fn eat_str(&mut self, lit: &str) -> (res: bool)
        requires
            old(self).wf(),
            forall|i: int| 0 <= i < lit@.len() ==> lit@[i] != '\n',
        ensures
            final(self).wf(),
            final(self).s == old(self).s,
            res == has_prefix_at(old(self).s@, old(self).pos as int, lit@),
            final(self).pos == old(self).pos + if res { lit@.len() as int } else { 0int },
    {
        let cs = chars_of(lit);
        let n = cs.len();
        let slen = self.s.len();
        if n > slen - self.pos {
            return false;
        }
        let mut i: usize = 0;
        while i < n
            invariant
                self.wf(),
                cs@ == lit@,
                n == cs@.len(),
                slen == self.s@.len(),
                self.pos + n <= slen,
                0 <= i <= n,
                forall|j: int| 0 <= j < i ==> self.s@[self.pos + j] == cs@[j],
            decreases n - i,
        {
            if self.s[self.pos + i] != cs[i] {
                proof {
                    assert(self.s@.subrange(self.pos as int, self.pos + n)[i as int] != lit@[i as int]);
                }
                return false;
            }
            i += 1;
        }
        proof {
            assert(self.s@.subrange(self.pos as int, self.pos + n) =~= lit@);
            assert forall|k: int| self.pos <= k < self.pos + n implies self.s@[k] != '\n' by {
                assert(self.s@[k] == lit@[k - self.pos]);
            }
            lemma_line_col_no_newline(self.s@, self.pos as int, self.pos + n);
            lemma_line_col_bounds(self.s@, self.pos + n);
        }
        self.column += n;
        self.pos += n;
        true
    }

    /// Eats a run of digits.
    fn eat_digits(&mut self)
        requires
            old(self).wf(),
        ensures
            final(self).wf(),
            final(self).s == old(self).s,
            final(self).pos == digits_end(old(self).s@, old(self).pos as int),
    {
        let ghost start = self.pos as int;
        while self.eat_digit_0_9()
            invariant
                self.wf(),
                self.s == old(self).s,
                digits_end(self.s@, self.pos as int) == digits_end(self.s@, start),
            decreases self.s@.len() - self.pos,
        {
        }
    }

    /// Eats the integer part of a number; false where it is malformed.
    fn lex_int_part(&mut self) -> (res: bool)
        requires
            old(self).wf(),
        ensures
            final(self).wf(),
            final(self).s == old(self).s,
            res == int_part_end(old(self).s@, old(self).pos as int) is Some,
            res ==> final(self).pos == int_part_end(old(self).s@, old(self).pos as int)->0,
    {
        if self.eat_char('0') {
            !self.eat_digit_0_9()
        } else if self.eat_digit_1_9() {
            self.eat_digits();
            true
        } else {
            false
        }
    }

    /// Eats the fraction of a number, if any; false where it is malformed.
    fn lex_frac_part(&mut self) -> (res: bool)
        requires
            old(self).wf(),
        ensures
            final(self).wf(),
            final(self).s == old(self).s,
            res == frac_part_end(old(self).s@, old(self).pos as int) is Some,
            res ==> final(self).pos == frac_part_end(old(self).s@, old(self).pos as int)->0,
    {
        if self.eat_char('.') {
            if !self.eat_digit_0_9() {
                return false;
            }
            self.eat_digits();
        }
        true
    }

    /// Eats the exponent of a number, if any; false where it is malformed.
    fn lex_exp_part(&mut self) -> (res: bool)
        requires
            old(self).wf(),
        ensures
            final(self).wf(),
            final(self).s == old(self).s,
            res == exp_part_end(old(self).s@, old(self).pos as int) is Some,
            res ==> final(self).pos == exp_part_end(old(self).s@, old(self).pos as int)->0,
    {
        if self.eat_char('e') || self.eat_char('E') {
            if !self.eat_char('-') {
                self.eat_char('+');
            }
            if !self.eat_digit_0_9() {
                return false;
            }
            self.eat_digits();
        }
        true
    }

    /// Scans a number at the current position, which stays where it ends.
    fn lex_number(&mut self) -> (res: Result<Option<usize>, JsonParseError>)
        requires
            old(self).wf(),
        ensures
            final(self).s == old(self).s,
            match lex_number(old(self).s@, old(self).pos as int) {
                Ok(None) => res == Ok::<Option<usize>, JsonParseError>(None) && *final(self) == *old(self),
                Ok(Some(q)) => res == Ok::<Option<usize>, JsonParseError>(Some(q as usize)) && final(self).wf()
                    && final(self).pos == q,
                Err((k, at)) => res matches Err(e) && e.kind@ == k && (e.line as int, e.column as int)
                    == line_col(old(self).s@, at),
            },
    {
        let start_column = self.column;
        let start_line = self.line;
        let minus = self.eat_char('-');
        if !minus && !(self.pos < self.s.len() && '0' <= self.s[self.pos] && self.s[self.pos] <= '9') {
            return Ok(None);
        }
        if !self.lex_int_part() || !self.lex_frac_part() || !self.lex_exp_part() {
            return Err(JsonParseError { line: start_line, column: start_column, kind: JsonErrorKind::InvalidNumber });
        }
        Ok(Some(self.pos))
    }

    /// Scans a string at the current position, which stays where it ends.
    fn lex_string(&mut self) -> (res: Result<Option<String>, JsonParseError>)
        requires
            old(self).wf(),
        ensures
            final(self).s == old(self).s,
            match lex_string(old(self).s@, old(self).pos as int) {
                Ok(None) => res matches Ok(None) && *final(self) == *old(self),
                Ok(Some((v, q))) => res matches Ok(Some(r)) && r@ == v && final(self).wf() && final(self).pos == q,
                Err((k, at)) => res matches Err(e) && e.kind@ == k && (e.line as int, e.column as int)
                    == line_col(old(self).s@, at),
            },
    {
        let ghost s = self.s@;
        let ghost p = self.pos as int;
        let quote_line = self.line;
        let quote_col = self.column;
        let quote_pos = self.pos;
        if !self.eat_char('"') {
            return Ok(None);
        }
        let start = self.pos;
        let ghost target = str_body(s, start as int, start as int, Seq::empty());
        let mut string: Vec<char> = Vec::new();
        let n = self.s.len();
        loop
            invariant
                self.wf(),
                self.s == old(self).s,
                self.s@ == s,
                n == s.len(),
                quote_pos == p,
                start == p + 1,
                start <= self.pos <= n,
                (quote_line as int, quote_col as int) == line_col(s, p),
                forall|i: int| p <= i < self.pos ==> s[i] != '\n',
                str_body(s, start as int, self.pos as int, string@) == target,
                target == str_body(s, start as int, start as int, Seq::empty()),
                char_at(s, p, '"'),
                s == old(self).s@,
                p == old(self).pos,
            decreases n - self.pos,
        {
            let ghost i = self.pos as int;
            proof {
                lemma_str_step(s, start as int, i);
            }
            match string_step(self.s, start, self.pos) {
                Step::Close => {
                    assert(str_body(s, start as int, i, string@) == Ok::<(Seq<char>, int), ErrAt>((string@, i + 1)));
                    self.eat_char('"');
                    return Ok(Some(string_from_chars(string.as_slice())));
                },
                Step::Fail(kind, at) => {
                    proof {
                        assert(str_body(s, start as int, i, string@) == Err::<(Seq<char>, int), ErrAt>((kind@, at as int)));
                        lemma_line_col_no_newline(s, p, at as int);
                        lemma_line_col_bounds(s, at as int);
                    }
                    return Err(JsonParseError { line: quote_line, column: quote_col + (at - quote_pos), kind });
                },
                Step::Char(c, j) => {
                    proof {
                        assert(str_body(s, start as int, i, string@) == str_body(s, start as int, j as int, string@.push(c)));
                        lemma_line_col_no_newline(s, i, j as int);
                        lemma_line_col_bounds(s, j as int);
                    }
                    string.push(c);
                    self.column = self.column + (j - self.pos);
                    self.pos = j;
                },
            }
        }
    }
}

/// Whether an error of the parser is the error of the model.
pub open spec fn err_matches(s: Seq<char>, e: JsonParseError, m: ErrAt) -> bool {
    e.kind@ == m.0 && (e.line as int, e.column as int) == line_col(s, m.1)
}

/// An array or object that is open while the parser reads one of its items.
enum Frame {
    Items(Vec<Value>),
    Members(Vec<(String, Value)>, String),
}

spec fn frame_view(f: Frame) -> FrameModel {
    match f {
        Frame::Items(items) => FrameModel::Items(view_items(items@)),
        Frame::Members(fields, key) => FrameModel::Members(view_fields(fields@), key@),
    }
}

spec fn frames_view(stack: Seq<Frame>) -> Seq<FrameModel> {
    stack.map_values(|f: Frame| frame_view(f))
}

/// What closing the innermost open array or object gave.
enum Closed {
    /// Nothing was open: the value is the whole text's.
    Done(Value),
    /// The innermost one was closed into a value.
    Value(Value),
    /// Another item was begun inside it.
    Opened,
}

/// Whether `fields` has a field `key`.
fn contains_key(fields: &Vec<(String, Value)>, key: &String) -> (res: bool)
    ensures
        res == has_key(view_fields(fields@), key@),
{
    let mut i: usize = 0;
    while i < fields.len()
        invariant
            0 <= i <= fields@.len(),
            forall|j: int| 0 <= j < i ==> view_fields(fields@)[j].0 != key@,
        decreases fields@.len() - i,
    {
        if fields[i].0 == *key {
            proof {
                assert(view_fields(fields@)[i as int].0 == key@);
            }
            return true;
        }
        i += 1;
    }
    false
}

/// Reads a key and its `:` at the position of `lx`, and opens the field.
fn open_member(lx: &mut Lexer, stack: &mut Vec<Frame>, fields: Vec<(String, Value)>) -> (res: Result<(), JsonParseError>)
    requires
        old(lx).wf(),
    ensures
        final(lx).s == old(lx).s,
        match res {
            Ok(()) => {
                &&& final(lx).wf()
                &&& final(lx).pos > old(lx).pos
                &&& run(final(lx).s@, frames_view(final(stack)@), parse_value(final(lx).s@, final(lx).pos as int))
                    == run(old(lx).s@, frames_view(old(stack)@), parse_first_member(old(lx).s@, old(lx).pos as int, view_fields(fields@)))
            },
            Err(e) => parse_first_member(old(lx).s@, old(lx).pos as int, view_fields(fields@)) matches Err(m) && err_matches(old(lx).s@, e, m),
        },
{
    let ghost s = lx.s@;
    let ghost p = lx.pos as int;
    let key = match lx.lex_string() {
        Err(e) => return Err(e),
        Ok(None) => return Err(lx.get_error(JsonErrorKind::ExpectedObjectKey)),
        Ok(Some(k)) => k,
    };
    proof {
        lemma_lex_string_bounds(s, p);
    }
    lx.skip_spaces();
    if !lx.eat_char(':') {
        return Err(lx.get_error(JsonErrorKind::Expected1(':')));
    }
    lx.skip_spaces();
    let ghost r1 = lx.pos;
    proof {
        lemma_skip_ws_bounds(s, lx.pos as int);
        lemma_run_members(s, frames_view(stack@), lx.pos as int, view_fields(fields@), key@);
    }
    let ghost fv = view_fields(fields@);
    let ghost kv = key@;
    stack.push(Frame::Members(fields, key));
    proof {
        assert(frame_view(stack@.last()) == FrameModel::Members(fv, kv));
        assert(frames_view(stack@) =~= frames_view(old(stack)@).push(FrameModel::Members(fv, kv)));
        assert(parse_first_member(s, p, fv) == parse_members(s, lx.pos as int, fv, kv));
        assert(run(s, frames_view(stack@), parse_value(s, lx.pos as int)) == run(s, frames_view(old(stack)@), parse_members(s, lx.pos as int, fv, kv)));
        assert(lx.pos > p);
        assert(lx.s@ == s);
        assert(lx.wf());
    }
    Ok(())
}

/// Reads a literal, number or string at the position of `lx`; `None` where
/// none starts there.
fn scalar_value(lx: &mut Lexer) -> (res: Result<Option<Value>, JsonParseError>)
    requires
        old(lx).wf(),
        old(lx).pos < old(lx).s@.len(),
    ensures
        final(lx).s == old(lx).s,
        match res {
            Ok(Some(v)) => {
                &&& final(lx).wf()
                &&& parse_value(old(lx).s@, old(lx).pos as int) == Ok::<(ValueModel, int), ErrAt>((v@, final(lx).pos as int))
            },
            Ok(None) => {
                &&& *final(lx) == *old(lx)
                &&& !has_prefix_at(old(lx).s@, old(lx).pos as int, seq!['n', 'u', 'l', 'l'])
                &&& !has_prefix_at(old(lx).s@, old(lx).pos as int, seq!['f', 'a', 'l', 's', 'e'])
                &&& !has_prefix_at(old(lx).s@, old(lx).pos as int, seq!['t', 'r', 'u', 'e'])
                &&& lex_number(old(lx).s@, old(lx).pos as int) == Ok::<Option<int>, ErrAt>(None)
                &&& lex_string(old(lx).s@, old(lx).pos as int) == Ok::<Option<(Seq<char>, int)>, ErrAt>(None)
            },
            Err(e) => parse_value(old(lx).s@, old(lx).pos as int) matches Err(m) && err_matches(old(lx).s@, e, m),
        },
{
    let ghost s = lx.s@;
    let ghost p = lx.pos as int;
    let start = lx.pos;
    proof {
        reveal_strlit("null");
        reveal_strlit("false");
        reveal_strlit("true");
        assert("null"@ =~= seq!['n', 'u', 'l', 'l']);
        assert("false"@ =~= seq!['f', 'a', 'l', 's', 'e']);
        assert("true"@ =~= seq!['t', 'r', 'u', 'e']);
    }
    if lx.eat_str("null") {
        lx.skip_spaces();
        return Ok(Some(Value::Null));
    }
    if lx.eat_str("false") {
        lx.skip_spaces();
        return Ok(Some(Value::Bool(false)));
    }
    if lx.eat_str("true") {
        lx.skip_spaces();
        return Ok(Some(Value::Bool(true)));
    }
    proof {
        lemma_lex_number_bounds(s, p);
    }
    match lx.lex_number() {
        Err(e) => return Err(e),
        Ok(Some(q)) => {
            let text = string_from_chars(&lx.s[start..q]);
            lx.skip_spaces();
            return Ok(Some(Value::Number(text)));
        },
        Ok(None) => {},
    }
    match lx.lex_string() {
        Err(e) => Err(e),
        Ok(Some(st)) => {
            lx.skip_spaces();
            Ok(Some(Value::String(st)))
        },
        Ok(None) => Ok(None),
    }
}

/// Reads a value at the position of `lx`: a whole scalar or empty container,
/// or the opening of an array or object, which goes on `stack`.
fn start_value(lx: &mut Lexer, stack: &mut Vec<Frame>) -> (res: Result<Option<Value>, JsonParseError>)
    requires
        old(lx).wf(),
    ensures
        final(lx).s == old(lx).s,
        match res {
            Ok(Some(v)) => {
                &&& final(lx).wf()
                &&& final(stack)@ == old(stack)@
                &&& parse_value(old(lx).s@, old(lx).pos as int) == Ok::<(ValueModel, int), ErrAt>((v@, final(lx).pos as int))
            },
            Ok(None) => {
                &&& final(lx).wf()
                &&& final(lx).pos > old(lx).pos
                &&& run(final(lx).s@, frames_view(final(stack)@), parse_value(final(lx).s@, final(lx).pos as int))
                    == run(old(lx).s@, frames_view(old(stack)@), parse_value(old(lx).s@, old(lx).pos as int))
            },
            Err(e) => parse_value(old(lx).s@, old(lx).pos as int) matches Err(m) && err_matches(old(lx).s@, e, m),
        },
{
    let ghost s = lx.s@;
    let ghost p = lx.pos as int;
    if lx.pos >= lx.s.len() {
        return Err(lx.get_error(JsonErrorKind::ExpectedValue));
    }
    match scalar_value(lx) {
        Err(e) => return Err(e),
        Ok(Some(v)) => return Ok(Some(v)),
        Ok(None) => {},
    }
    if lx.eat_char('[') {
        lx.skip_spaces();
        proof {
            lemma_skip_ws_bounds(s, p + 1);
        }
        if lx.eat_char(']') {
            lx.skip_spaces();
            let empty: Vec<Value> = Vec::new();
            proof {
                lemma_view_array(empty);
                assert(view_items(empty@) =~= Seq::<ValueModel>::empty());
            }
            return Ok(Some(Value::Array(empty)));
        }
        proof {
            lemma_run_items(s, frames_view(stack@), lx.pos as int, Seq::empty());
        }
        stack.push(Frame::Items(Vec::new()));
        proof {
            assert(view_items(Seq::<Value>::empty()) =~= Seq::<ValueModel>::empty());
            assert(frames_view(stack@) =~= frames_view(old(stack)@).push(FrameModel::Items(Seq::empty())));
        }
        return Ok(None);
    }
    if lx.eat_char('{') {
        lx.skip_spaces();
        proof {
            lemma_skip_ws_bounds(s, p + 1);
        }
        if lx.eat_char('}') {
            lx.skip_spaces();
            let empty: Vec<(String, Value)> = Vec::new();
            proof {
                lemma_view_object(empty);
                assert(view_fields(empty@) =~= Seq::<(Seq<char>, ValueModel)>::empty());
            }
            return Ok(Some(Value::Object(empty)));
        }
        let fields: Vec<(String, Value)> = Vec::new();
        proof {
            assert(view_fields(fields@) =~= Seq::<(Seq<char>, ValueModel)>::empty());
        }
        return match open_member(lx, stack, fields) {
            Ok(()) => Ok(None),
            Err(e) => Err(e),
        };
    }
    Err(lx.get_error(JsonErrorKind::ExpectedValue))
}

/// Closes the innermost open array or object after its item `value`, which
/// ends (with its whitespace) at the position of `lx`.
fn close_frame(lx: &mut Lexer, stack: &mut Vec<Frame>, value: Value) -> (res: Result<Closed, JsonParseError>)
    requires
        old(lx).wf(),
    ensures
        final(lx).s == old(lx).s,
        match res {
            Ok(Closed::Done(v)) => run(old(lx).s@, frames_view(old(stack)@), Ok((value@, old(lx).pos as int)))
                == Ok::<ValueModel, ErrAt>(v@),
            Ok(Closed::Value(v)) => {
                &&& final(lx).wf()
                &&& final(lx).pos > old(lx).pos
                &&& run(final(lx).s@, frames_view(final(stack)@), Ok((v@, final(lx).pos as int)))
                    == run(old(lx).s@, frames_view(old(stack)@), Ok((value@, old(lx).pos as int)))
            },
            Ok(Closed::Opened) => {
                &&& final(lx).wf()
                &&& final(lx).pos > old(lx).pos
                &&& run(final(lx).s@, frames_view(final(stack)@), parse_value(final(lx).s@, final(lx).pos as int))
                    == run(old(lx).s@, frames_view(old(stack)@), Ok((value@, old(lx).pos as int)))
            },
            Err(e) => run(old(lx).s@, frames_view(old(stack)@), Ok((value@, old(lx).pos as int))) matches Err(m)
                && err_matches(old(lx).s@, e, m),
        },
{
    let ghost s = lx.s@;
    let ghost q = lx.pos as int;
    let ghost vm = value@;
    let ghost old_stack = frames_view(stack@);
    let top = stack.pop();
    proof {
        if old(stack)@.len() > 0 {
            assert(frames_view(stack@) =~= old_stack.drop_last());
            assert(old_stack.last() == frame_view(old(stack)@.last()));
        }
    }
    match top {
        None => {
            if lx.pos < lx.s.len() {
                return Err(lx.get_error(JsonErrorKind::ExpectedEof));
            }
            Ok(Closed::Done(value))
        },
        Some(Frame::Items(mut items)) => {
            let ghost acc = view_items(items@);
            proof {
                assert(old_stack.last() == FrameModel::Items(acc));
                assert(run(s, old_stack, Ok((vm, q))) == run(s, frames_view(stack@), after_item(s, acc, vm, q)));
            }
            items.push(value);
            proof {
                assert(view_items(items@) =~= acc.push(vm));
                lemma_view_array(items);
            }
            if lx.eat_char(']') {
                lx.skip_spaces();
                proof {
                    lemma_skip_ws_bounds(s, q + 1);
                }
                Ok(Closed::Value(Value::Array(items)))
            } else if lx.eat_char(',') {
                lx.skip_spaces();
                proof {
                    lemma_skip_ws_bounds(s, q + 1);
                    lemma_run_items(s, frames_view(stack@), lx.pos as int, acc.push(vm));
                }
                stack.push(Frame::Items(items));
                proof {
                    assert(frames_view(stack@) =~= old_stack.drop_last().push(FrameModel::Items(acc.push(vm))));
                }
                Ok(Closed::Opened)
            } else {
                Err(lx.get_error(JsonErrorKind::Expected2(']', ',')))
            }
        },
        Some(Frame::Members(mut fields, key)) => {
            let ghost f = view_fields(fields@);
            let ghost k = key@;
            proof {
                assert(old_stack.last() == FrameModel::Members(f, k));
                assert(run(s, old_stack, Ok((vm, q))) == run(s, frames_view(stack@), after_member(s, f, k, vm, q)));
            }
            if contains_key(&fields, &key) {
                proof {
                    assert(after_member(s, f, k, vm, q) == Err::<(ValueModel, int), ErrAt>((JsonErrorModel::RepeatedFieldName(k), q)));
                }
                return Err(lx.get_error(JsonErrorKind::RepeatedFieldName(key)));
            }
            fields.push((key, value));
            proof {
                assert(view_fields(fields@) =~= f.push((k, vm)));
                lemma_view_object(fields);
            }
            if lx.eat_char('}') {
                lx.skip_spaces();
                proof {
                    lemma_skip_ws_bounds(s, q + 1);
                }
                Ok(Closed::Value(Value::Object(fields)))
            } else if lx.eat_char(',') {
                lx.skip_spaces();
                proof {
                    lemma_skip_ws_bounds(s, q + 1);
                }
                match open_member(lx, stack, fields) {
                    Ok(()) => Ok(Closed::Opened),
                    Err(e) => Err(e),
                }
            } else {
                Err(lx.get_error(JsonErrorKind::Expected2('}', ',')))
            }
        },
    }
}

/// Closes open arrays and objects after the value `value`, which ends (with
/// its whitespace) at the position of `lx`, until the text ends (`Some`) or
/// another item begins (`None`).
#[verifier::loop_isolation(false)]
fn close_frames(lx: &mut Lexer, stack: &mut Vec<Frame>, value: Value) -> (res: Result<Option<Value>, JsonParseError>)
    requires
        old(lx).wf(),
    ensures
        final(lx).s == old(lx).s,
        match res {
            Ok(Some(v)) => run(old(lx).s@, frames_view(old(stack)@), Ok((value@, old(lx).pos as int)))
                == Ok::<ValueModel, ErrAt>(v@),
            Ok(None) => {
                &&& final(lx).wf()
                &&& final(lx).pos > old(lx).pos
                &&& run(final(lx).s@, frames_view(final(stack)@), parse_value(final(lx).s@, final(lx).pos as int))
                    == run(old(lx).s@, frames_view(old(stack)@), Ok((value@, old(lx).pos as int)))
            },
            Err(e) => run(old(lx).s@, frames_view(old(stack)@), Ok((value@, old(lx).pos as int))) matches Err(m)
                && err_matches(old(lx).s@, e, m),
        },
{
    let ghost s = lx.s@;
    let ghost q0 = lx.pos as int;
    let ghost target = run(s, frames_view(stack@), Ok((value@, q0)));
    let ghost v0 = value@;
    let mut value = value;
    loop
        invariant
            lx.wf(),
            lx.s == old(lx).s,
            lx.s@ == s,
            s == old(lx).s@,
            q0 == old(lx).pos,
            lx.pos >= q0,
            target == run(s, frames_view(old(stack)@), Ok((v0, q0))),
            run(s, frames_view(stack@), Ok((value@, lx.pos as int))) == target,
        decreases s.len() - lx.pos,
    {
        match close_frame(lx, stack, value) {
            Err(e) => return Err(e),
            Ok(Closed::Done(v)) => return Ok(Some(v)),
            Ok(Closed::Value(v)) => {
                value = v;
            },
            Ok(Closed::Opened) => return Ok(None),
        }
    }
}

/// Parses a JSON text into a value.
#[verifier::rlimit(40)]
pub fn parse_json(text: &str) -> (res: Result<Value, JsonParseError>)
    ensures
        match res {
            Ok(v) => parse_json_model(text@) == Ok::<ValueModel, ErrAt>(v@),
            Err(e) => parse_json_model(text@) matches Err(m) && err_matches(text@, e, m),
        },
{
    let chars = chars_of(text);
    let mut lx = Lexer { s: chars.as_slice(), pos: 0, line: 0, column: 0 };
    let ghost s = text@;
    let ghost target = parse_json_model(s);
    let mut stack: Vec<Frame> = Vec::new();
    proof {
        assert(frames_view(stack@) =~= Seq::<FrameModel>::empty());
    }
    lx.skip_spaces();
    loop
        invariant
            lx.wf(),
            lx.s@ == s,
            s == text@,
            target == parse_json_model(s),
            run(s, frames_view(stack@), parse_value(s, lx.pos as int)) == target,
        decreases s.len() - lx.pos,
    {
        let ghost p = lx.pos as int;
        let value = match start_value(&mut lx, &mut stack) {
            Err(e) => return Err(e),
            Ok(None) => continue,
            Ok(Some(v)) => v,
        };
        proof {
            lemma_parse_value_pos(s, p);
        }
        match close_frames(&mut lx, &mut stack, value) {
            Err(e) => return Err(e),
            Ok(Some(v)) => return Ok(v),
            Ok(None) => {},
        }
    }
}

/// One step of scanning the content of a string.
enum Step {
    Close,
    Char(char, usize),
    Fail(JsonErrorKind, usize),
}

/// What the text at index `i` of a string whose content starts at `start` is.
fn string_step(s: &[char], start: usize, i: usize) -> (res: Step)
    requires
        start <= i <= s@.len(),
    ensures
        match (res, str_step(s@, start as int, i as int)) {
            (Step::Close, StrStep::Close) => true,
            (Step::Char(c, j), StrStep::Char(c2, j2)) => c == c2 && j == j2,
            (Step::Fail(k, at), StrStep::Fail(k2, at2)) => k@ == k2 && at == at2,
            _ => false,
        },
{
    let n = s.len();
    if i >= n {
        return Step::Fail(JsonErrorKind::UnfinishedString, start);
    }
    let chr = s[i];
    if chr == '"' {
        Step::Close
    } else if chr == '\\' {
        if n - i < 2 {
            return Step::Fail(JsonErrorKind::UnfinishedString, start);
        }
        let e = s[i + 1];
        if e == '"' || e == '\\' || e == '/' {
            Step::Char(e, i + 2)
        } else if e == 'b' {
            Step::Char('\u{8}', i + 2)
        } else if e == 'f' {
            Step::Char('\u{c}', i + 2)
        } else if e == 'n' {
            Step::Char('\n', i + 2)
        } else if e == 'r' {
            Step::Char('\r', i + 2)
        } else if e == 't' {
            Step::Char('\t', i + 2)
        } else if e == 'u' {
            let cu1 = match hex4_at(s, i + 2) {
                Some(cu) => cu,
                None => return Step::Fail(JsonErrorKind::InvalidStringEscape, i),
            };
            if 0xD800 <= cu1 && cu1 <= 0xDFFF && n - i > 7 && s[i + 6] == '\\' && s[i + 7] == 'u' {
                let cu2 = match hex4_at(s, i + 8) {
                    Some(cu) => cu,
                    None => return Step::Fail(JsonErrorKind::InvalidStringEscape, i),
                };
                if cu1 <= 0xDBFF && 0xDC00 <= cu2 && cu2 <= 0xDFFF {
                    match char_from_u32(0x10000 + (cu1 - 0xD800) * 1024 + (cu2 - 0xDC00)) {
                        Some(c) => Step::Char(c, i + 12),
                        None => Step::Fail(JsonErrorKind::InvalidStringEscape, i),
                    }
                } else {
                    Step::Fail(JsonErrorKind::InvalidStringEscape, i)
                }
            } else {
                match char_from_u32(cu1) {
                    Some(c) => Step::Char(c, i + 6),
                    None => Step::Fail(JsonErrorKind::InvalidStringEscape, i),
                }
            }
        } else {
            Step::Fail(JsonErrorKind::InvalidStringEscape, i)
        }
    } else if !(chr <= '\u{1f}' || chr == '\u{7f}') {
        Step::Char(chr, i + 1)
    } else {
        Step::Fail(JsonErrorKind::InvalidChrInString, i)
    }
}

/// The code unit written as four hexadecimal digits at `i`.
fn hex4_at(s: &[char], i: usize) -> (res: Option<u32>)
    ensures
        res == hex4(s@, i as int),
{
    if i > s.len() || s.len() - i < 4 {
        return None;
    }
    let d0 = match hex_digit(s[i]) { Some(d) => d, None => return None };
    let d1 = match hex_digit(s[i + 1]) { Some(d) => d, None => return None };
    let d2 = match hex_digit(s[i + 2]) { Some(d) => d, None => return None };
    let d3 = match hex_digit(s[i + 3]) { Some(d) => d, None => return None };
    Some(d0 * 4096 + d1 * 256 + d2 * 16 + d3)
}

/// The value of a hexadecimal digit.
fn hex_digit(c: char) -> (res: Option<u32>)
    ensures
        res == hex_val(c),
        res matches Some(d) ==> d < 16,
{
    if '0' <= c && c <= '9' {
        Some(c as u32 - 48)
    } else if 'a' <= c && c <= 'f' {
        Some(c as u32 - 97 + 10)
    } else if 'A' <= c && c <= 'F' {
        Some(c as u32 - 65 + 10)
    } else {
        None
    }
}

/// The text of why a text is not JSON.
pub open spec fn json_error_kind_text(k: JsonErrorModel) -> Seq<char> {
    match k {
        JsonErrorModel::ExpectedValue => "expected value"@,
        JsonErrorModel::ExpectedEof => "expected end-of-file"@,
        JsonErrorModel::Expected1(c) => seq!['e', 'x', 'p', 'e', 'c', 't', 'e', 'd', ' ', '`', c, '`'],
        JsonErrorModel::Expected2(c1, c2) => seq!['e', 'x', 'p', 'e', 'c', 't', 'e', 'd', ' ', '`', c1, '`', ' ', 'o', 'r', ' ', '`', c2, '`'],
        JsonErrorModel::ExpectedObjectKey => "expected object key"@,
        JsonErrorModel::InvalidNumber => "invalid number"@,
        JsonErrorModel::NumberOverflow => "number overflow"@,
        JsonErrorModel::UnfinishedString => "unfinished string"@,
        JsonErrorModel::InvalidChrInString => "invalid character in string"@,
        JsonErrorModel::InvalidStringEscape => "invalid string escape"@,
        JsonErrorModel::RepeatedFieldName(name) => "repeated field name "@ + debug_str_text(name),
    }
}

/// The text of a parse error: where (counted from 1) and why.
pub open spec fn json_error_text(line: nat, column: nat, k: JsonErrorModel) -> Seq<char> {
    "line "@ + int_digits(line + 1, 10, seq![]) + ", column "@ + int_digits(column + 1, 10, seq![]) + ": "@
        + json_error_kind_text(k)
}

impl JsonErrorKind {
    /// The text of why a text is not JSON.
    pub fn text(&self) -> (res: String)
        ensures
            res@ == json_error_kind_text(self@),
    {
        match self {
            JsonErrorKind::ExpectedValue => String::from_str("expected value"),
            JsonErrorKind::ExpectedEof => String::from_str("expected end-of-file"),
            JsonErrorKind::Expected1(c) => {
                let v = vec!['e', 'x', 'p', 'e', 'c', 't', 'e', 'd', ' ', '`', *c, '`'];
                proof {
                    assert(v@ =~= seq!['e', 'x', 'p', 'e', 'c', 't', 'e', 'd', ' ', '`', *c, '`']);
                }
                string_from_chars(v.as_slice())
            },
            JsonErrorKind::Expected2(c1, c2) => {
                let v = vec!['e', 'x', 'p', 'e', 'c', 't', 'e', 'd', ' ', '`', *c1, '`', ' ', 'o', 'r', ' ', '`', *c2, '`'];
                proof {
                    assert(v@ =~= seq!['e', 'x', 'p', 'e', 'c', 't', 'e', 'd', ' ', '`', *c1, '`', ' ', 'o', 'r', ' ', '`', *c2, '`']);
                }
                string_from_chars(v.as_slice())
            },
            JsonErrorKind::ExpectedObjectKey => String::from_str("expected object key"),
            JsonErrorKind::InvalidNumber => String::from_str("invalid number"),
            JsonErrorKind::NumberOverflow => String::from_str("number overflow"),
            JsonErrorKind::UnfinishedString => String::from_str("unfinished string"),
            JsonErrorKind::InvalidChrInString => String::from_str("invalid character in string"),
            JsonErrorKind::InvalidStringEscape => String::from_str("invalid string escape"),
            JsonErrorKind::RepeatedFieldName(name) => {
                let shown = debug_str(name.as_str());
                concat_str("repeated field name ", shown.as_str())
            },
        }
    }
}

impl JsonParseError {
    /// The text of the error: where (counted from 1) and why.
    pub fn message(&self) -> (res: String)
        ensures
            res@ == json_error_text(self.line as nat, self.column as nat, self.kind@),
    {
        let line = decimal_text((self.line as u128) + 1);
        let column = decimal_text((self.column as u128) + 1);
        let kind = self.kind.text();
        let a = concat_str("line ", line.as_str());
        let b = concat_str(", column ", column.as_str());
        let c = concat_str(": ", kind.as_str());
        let mut out = a;
        out.append(b.as_str());
        out.append(c.as_str());
        proof {
            assert(out@ =~= json_error_text(self.line as nat, self.column as nat, self.kind@));
        }
        out
    }
}

/// The value of a JSON text, its objects' fields in the order of their
/// names, or the error of `std.parseJson`.
pub fn std_parse_json(text: &str) -> (res: Result<Value, EvalErrorKind>)
    ensures
        match res {
            Ok(v) => parse_json_model(text@) matches Ok(m) && v@ == normalize_model(m),
            Err(e) => parse_json_model(text@) matches Err(m) && is_other_error(
                e,
                "failed to parse JSON: "@ + json_error_text(
                    line_col(text@, m.1).0 as nat,
                    line_col(text@, m.1).1 as nat,
                    m.0,
                ),
            ),
        },
{
    match parse_json(text) {
        Ok(v) => Ok(normalize(&v)),
        Err(pe) => {
            let m = pe.message();
            let e = other_error(concat_str("failed to parse JSON: ", m.as_str()));
            Err(e)
        },
    }
}


/// Where the escaped form of the `k`-th character of `s` begins in the JSON
/// string literal of `s`.
pub open spec fn quoted_pos(s: Seq<char>, k: int) -> int {
    1 + json_escape_body(s.subrange(0, k)).len() as int
}

/// Whether a character is one that `escape_string_json` writes unescaped
/// although a JSON string may not hold it (U+001A to U+001F).
pub open spec fn is_unescaped_control(c: char) -> bool {
    0x1a <= (c as u32) && (c as u32) <= 0x1f
}

proof fn lemma_escape_body_prefix(s: Seq<char>, k: int)
    requires
        0 <= k <= s.len(),
    ensures
        json_escape_body(s.subrange(0, k)).len() <= json_escape_body(s).len(),
        json_escape_body(s).subrange(0, json_escape_body(s.subrange(0, k)).len() as int) == json_escape_body(
            s.subrange(0, k),
        ),
    decreases s.len(),
{
    if k == s.len() {
        assert(s.subrange(0, k) =~= s);
        assert(json_escape_body(s).subrange(0, json_escape_body(s).len() as int) =~= json_escape_body(s));
    } else {
        let p = s.drop_last();
        assert(p.subrange(0, k) =~= s.subrange(0, k));
        lemma_escape_body_prefix(p, k);
        let b = json_escape_body(p);
        let bk = json_escape_body(s.subrange(0, k));
        assert(json_escape_body(s) == b + json_escape_char(s.last()));
        assert((b + json_escape_char(s.last())).subrange(0, bk.len() as int) =~= b.subrange(0, bk.len() as int));
    }
}

/// The lower-case form of an ASCII letter; any other character as it is.
pub open spec fn ascii_lower(c: char) -> char {
    if 'A' <= c && c <= 'Z' {
        ((c as u32) + 32) as char
    } else {
        c
    }
}

/// The upper-case form of an ASCII letter; any other character as it is.
pub open spec fn ascii_upper(c: char) -> char {
    if 'a' <= c && c <= 'z' {
        ((c as u32) - 32) as char
    } else {
        c
    }
}

/// Each value below sixteen, written as a hexadecimal digit in lower case
/// (as the JSON writer writes it) or in upper case, reads back as itself.
pub proof fn law_hex_digit_values(d: u32)
    requires
        d < 16,
    ensures
        hex_val(hex_digit_lower(d)) == Some(d),
        hex_val(ascii_upper(hex_digit_lower(d))) == Some(d),
{
}

/// The case of a letter does not change what it reads as in a `\u` escape:
/// every character reads as its lower-case form reads, so `E` is fourteen
/// as `e` is; and only `0`-`9`, `a`-`f` and `A`-`F` are digits, each below
/// sixteen.
pub proof fn law_hex_digit_case(c: char)
    ensures
        hex_val(c) == hex_val(ascii_lower(c)),
        hex_val(c) is Some <==> ('0' <= c <= '9' || 'a' <= c <= 'f' || 'A' <= c <= 'F'),
        hex_val(c) matches Some(d) ==> d < 16,
{
}

/// Four hexadecimal digits read the same code unit whatever the case of
/// their letters: `\u00E9` and `\u00e9` are the same character.
pub proof fn law_hex4_case(s: Seq<char>, t: Seq<char>, i: int)
    requires
        s.len() == t.len(),
        forall|j: int| 0 <= j < s.len() ==> #[trigger] t[j] == ascii_lower(s[j]),
    ensures
        hex4(s, i) == hex4(t, i),
{
    if 0 <= i && i + 4 <= s.len() {
        law_hex_digit_case(s[i]);
        law_hex_digit_case(s[i + 1]);
        law_hex_digit_case(s[i + 2]);
        law_hex_digit_case(s[i + 3]);
        assert(t[i] == ascii_lower(s[i]));
        assert(t[i + 1] == ascii_lower(s[i + 1]));
        assert(t[i + 2] == ascii_lower(s[i + 2]));
        assert(t[i + 3] == ascii_lower(s[i + 3]));
    }
}

proof fn lemma_hex_digit_lower(d: u32)
    requires
        d < 16,
    ensures
        hex_val(hex_digit_lower(d)) == Some(d),
{
}

proof fn lemma_escape_step(t: Seq<char>, start: int, i: int, c: char)
    requires
        0 <= i,
        i + json_escape_char(c).len() <= t.len(),
        t.subrange(i, i + json_escape_char(c).len()) == json_escape_char(c),
        !is_unescaped_control(c),
    ensures
        str_step(t, start, i) == StrStep::Char(c, i + json_escape_char(c).len()),
{
    let e = json_escape_char(c);
    assert forall|j: int| 0 <= j < e.len() implies t[i + j] == e[j] by {
        assert(t.subrange(i, i + e.len())[j] == t[i + j]);
    }
    let u = c as u32;
    if c == '\u{8}' || c == '\t' || c == '\n' || c == '\u{c}' || c == '\r' || c == '"' || c == '\\' {
        assert(t[i] == '\\');
        assert(t[i + 1] == e[1]);
    } else if u <= 0x19 || (0x7f <= u && u <= 0x9f) {
        assert(t[i] == '\\');
        assert(t[i + 1] == 'u');
        lemma_hex_digit_lower(0);
        lemma_hex_digit_lower(u / 16);
        lemma_hex_digit_lower(u % 16);
        assert(t[i + 2] == '0' && t[i + 3] == '0');
        assert(t[i + 4] == hex_digit_lower(u / 16));
        assert(t[i + 5] == hex_digit_lower(u % 16));
        assert(hex4(t, i + 2) == Some(u));
        assert(is_scalar(u));
        assert((u as char) == c);
    } else {
        assert(e =~= seq![c]);
        assert(t[i + 0] == e[0]);
        assert(t[i] == c);
        assert(!is_ascii_control(c));
    }
}

/// Scanning the JSON string literal of `s`, written at `q` in `t`, from the
/// escaped form of its `k`-th character on, gives `s` and the index after
/// the literal.
pub(crate) proof fn lemma_str_body_quoted(t: Seq<char>, q: int, s: Seq<char>, k: int)
    requires
        0 <= q,
        q + json_quote(s).len() <= t.len(),
        t.subrange(q, q + json_quote(s).len()) == json_quote(s),
        0 <= k <= s.len(),
        forall|j: int| 0 <= j < s.len() ==> !is_unescaped_control(#[trigger] s[j]),
    ensures
        str_body(t, q + 1, q + quoted_pos(s, k), s.subrange(0, k)) == Ok::<(Seq<char>, int), ErrAt>(
            (s, q + json_quote(s).len()),
        ),
    decreases s.len() - k,
{
    let u = json_quote(s);
    let body = json_escape_body(s);
    assert(u.len() == body.len() + 2);
    assert forall|i: int| 0 <= i < u.len() implies t[q + i] == u[i] by {
        assert(t.subrange(q, q + u.len())[i] == t[q + i]);
    }
    lemma_escape_body_prefix(s, k);
    if k == s.len() {
        assert(s.subrange(0, k) =~= s);
        assert(u[quoted_pos(s, k)] == '"');
        assert(t[q + quoted_pos(s, k)] == '"');
    } else {
        let e = json_escape_char(s[k]);
        let pk = quoted_pos(s, k);
        lemma_escape_body_prefix(s, k + 1);
        let sub = s.subrange(0, k + 1);
        assert(sub.drop_last() =~= s.subrange(0, k));
        assert(json_escape_body(sub) == json_escape_body(s.subrange(0, k)) + e);
        assert(quoted_pos(s, k + 1) == pk + e.len());
        assert forall|j: int| 0 <= j < e.len() implies t.subrange(q + pk, q + pk + e.len())[j] == e[j] by {
            let bk1 = json_escape_body(sub);
            assert(body.subrange(0, bk1.len() as int)[pk - 1 + j] == bk1[pk - 1 + j]);
            assert(u[pk + j] == body[pk - 1 + j]);
            assert(t[q + pk + j] == u[pk + j]);
        }
        assert(t.subrange(q + pk, q + pk + e.len()) =~= e);
        lemma_escape_step(t, q + 1, q + pk, s[k]);
        assert(s.subrange(0, k).push(s[k]) =~= s.subrange(0, k + 1));
        lemma_str_body_quoted(t, q, s, k + 1);
    }
}

/// Reading back what `std.escapeStringJson` writes: the JSON string literal
/// of a string parses as that string, for every string that holds none of
/// U+001A to U+001F (which the escaping leaves as they are, and JSON refuses).
pub proof fn law_json_string_roundtrip(s: Seq<char>)
    requires
        forall|j: int| 0 <= j < s.len() ==> !is_unescaped_control(#[trigger] s[j]),
    ensures
        parse_json_model(json_quote(s)) == Ok::<ValueModel, ErrAt>(ValueModel::String(s)),
{
    let t = json_quote(s);
    assert(t[0] == '"');
    assert(skip_ws(t, 0) == 0);
    assert(s.subrange(0, 0) =~= Seq::<char>::empty());
    assert(json_escape_body(Seq::<char>::empty()) =~= Seq::<char>::empty());
    assert(quoted_pos(s, 0) == 1);
    assert(t.subrange(0, t.len() as int) =~= t);
    lemma_str_body_quoted(t, 0, s, 0);
    assert(!has_prefix_at(t, 0, seq!['n', 'u', 'l', 'l']));
    assert(!has_prefix_at(t, 0, seq!['f', 'a', 'l', 's', 'e']));
    assert(!has_prefix_at(t, 0, seq!['t', 'r', 'u', 'e']));
    assert(lex_number(t, 0) == Ok::<Option<int>, ErrAt>(None));
    assert(skip_ws(t, t.len() as int) == t.len());
}

} // verus!
