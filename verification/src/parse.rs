//! The grammar of JSON with the JSON5 extensions that the library accepts,
//! as functions on a sequence of characters, and the parser that follows it.
//!
//! White space may stand before any token. Commas between the items of an
//! array and between the members of an object are optional, and one may trail
//! the last. Numbers are not read: an array of characters that looks like a
//! number becomes a deferred cell.

use crate::error::{Error, ErrorKind};
use crate::float::{INFINITY_BITS, NAN_BITS, NEG_INFINITY_BITS};
use crate::json::{
    items_view,
    lemma_array_view,
    lemma_object_view,
    members_view,
    sorted,
    Json,
    Member,
    Value,
};
use crate::lex::{lex_after, Lex};
use crate::num::{integer_of, Floating, FloatingView, Integral, IntegralView, Reading, DEFER_LIMIT};
use crate::property::{lemma_upsert_members, upsert, upsert_object_key, Property};
use crate::text::{byte_len, char_is_space, chars_of, is_space, push_char, string_of};
use vstd::prelude::*;

verus! {

/// Whether `c` is alphabetic, as `char::is_alphabetic` tells it.
pub uninterp spec fn alphabetic(c: char) -> bool;

/// Whether `c` is a letter or a number, as `char::is_alphanumeric` tells it.
pub uninterp spec fn alphanumeric(c: char) -> bool;

/// `char::is_alphabetic`: the Unicode property `Alphabetic`. Nothing is
/// claimed of the result but that it depends on the character alone.
pub assume_specification[ char::is_alphabetic ](c: char) -> (r: bool)
    ensures
        r == alphabetic(c),
;

/// `char::is_alphanumeric`: alphabetic or numeric by the Unicode tables.
/// Nothing is claimed of the result but that it depends on the character
/// alone.
pub assume_specification[ char::is_alphanumeric ](c: char) -> (r: bool)
    ensures
        r == alphanumeric(c),
;

/// `char::from_u32`: the character with the given code point. There is one
/// for every number up to 0x10FFFF outside the surrogate range
/// 0xD800..=0xDFFF, and for no other.
pub assume_specification[ char::from_u32 ](i: u32) -> (r: Option<char>)
    ensures
        r is Some <==> (i < 0xD800 || 0xE000 <= i <= 0x10FFFF),
        r is Some ==> r->0 as u32 == i,
;

/// What the parser makes of a text at a position: a value and the index
/// after it, or the kind of the failure.
pub type Parsed = Result<(Value, int), ErrorKind>;

/// The outcome that is a value and the index after it.
pub open spec fn parsed(v: Value, end: int) -> Parsed {
    Ok((v, end))
}

/// The outcome that is a failure.
pub open spec fn failed(kind: ErrorKind) -> Parsed {
    Err(kind)
}

/// How a character takes part in the text of a number.
pub enum NumClass {
    /// It ends the number.
    Stop,
    /// A digit, a sign or a hexadecimal letter.
    Plain,
    /// `.`, `e` or `E`: the number is a float.
    Float,
    /// `x`: the number is hexadecimal.
    Hex,
}

/// The class of a character: `.`, `e` and `E` mark a float, `x` marks a
/// hexadecimal integer, digits, signs and the letters `a` to `f` in either
/// case are plain, and every other character ends the number.
pub open spec fn num_class(c: char) -> NumClass {
    let v = c as u32;
    if v == 0x2E || v == 0x45 || v == 0x65 {
        NumClass::Float
    } else if v == 0x78 {
        NumClass::Hex
    } else if v == 0x2B || v == 0x2D || (0x30 <= v <= 0x39) || (0x41 <= v <= 0x46) || (0x61 <= v
        <= 0x66) {
        NumClass::Plain
    } else {
        NumClass::Stop
    }
}

/// Index of the first character at or after `pos` that is no white space.
pub open spec fn skip_space(s: Seq<char>, pos: int) -> int
    decreases s.len() - pos,
{
    if 0 <= pos < s.len() && is_space(s[pos]) {
        skip_space(s, pos + 1)
    } else {
        pos
    }
}

/// Tells whether `word` stands in `s` at `pos`.
pub open spec fn has_word(s: Seq<char>, pos: int, word: Seq<char>) -> bool {
    0 <= pos && pos + word.len() <= s.len() && s.subrange(pos, pos + word.len()) == word
}

/// End of the run of number characters that starts at `pos`.
pub open spec fn num_end(s: Seq<char>, pos: int) -> int
    decreases s.len() - pos,
{
    if 0 <= pos < s.len() && !(num_class(s[pos]) is Stop) {
        num_end(s, pos + 1)
    } else {
        pos
    }
}

/// Tells whether `s[from..to]` holds a character of the given class.
pub open spec fn holds_class(s: Seq<char>, from: int, to: int, class: NumClass) -> bool {
    exists|i: int| from <= i < to && 0 <= i < s.len() && num_class(#[trigger] s[i]) == class
}

/// The cell for the number whose text is `s[pos..]` up to the first character
/// that cannot belong to a number. The text is a float's where it holds `.`,
/// `e` or `E` and no `x`; else an integer's, read at once where it is too
/// long to defer, and refused as an invalid number where it then denotes
/// none.
pub open spec fn spec_number(s: Seq<char>, pos: int) -> Parsed {
    let end = num_end(s, pos);
    let text = s.subrange(pos, end);
    if holds_class(s, pos, end, NumClass::Float) && !holds_class(s, pos, end, NumClass::Hex) {
        Ok((Value::Float(FloatingView::Text(text, Reading::Missing)), end))
    } else if byte_len(text) < DEFER_LIMIT {
        Ok((Value::Integer(IntegralView::Text(text)), end))
    } else {
        match integer_of(text) {
            Some(v) => Ok((Value::Integer(IntegralView::Data(v)), end)),
            None => Err(ErrorKind::InvalidNumber),
        }
    }
}

/// Value of a hexadecimal digit.
pub open spec fn hex_digit(c: char) -> Option<int> {
    let v = c as u32;
    if 0x30 <= v <= 0x39 {
        Some(v - 0x30)
    } else if 0x41 <= v <= 0x46 {
        Some(v - 0x41 + 10)
    } else if 0x61 <= v <= 0x66 {
        Some(v - 0x61 + 10)
    } else {
        None
    }
}

/// The number that the four hexadecimal digits at `pos` denote.
pub open spec fn hex4(s: Seq<char>, pos: int) -> Option<int> {
    if 0 <= pos && pos + 4 <= s.len() {
        match (
            hex_digit(s[pos]),
            hex_digit(s[pos + 1]),
            hex_digit(s[pos + 2]),
            hex_digit(s[pos + 3]),
        ) {
            (Some(a), Some(b), Some(c), Some(d)) => Some(((a * 16 + b) * 16 + c) * 16 + d),
            _ => None,
        }
    } else {
        None
    }
}

/// The character that an escape stands for and the index after it, `pos`
/// being the index after the backslash.
pub open spec fn spec_escape(s: Seq<char>, pos: int) -> Option<(char, int)> {
    if !(0 <= pos < s.len()) {
        None
    } else if s[pos] == '"' || s[pos] == '\\' || s[pos] == '/' {
        Some((s[pos], pos + 1))
    } else if s[pos] == 'b' {
        Some(('\x08', pos + 1))
    } else if s[pos] == 'f' {
        Some(('\x0c', pos + 1))
    } else if s[pos] == 'n' {
        Some(('\n', pos + 1))
    } else if s[pos] == 'r' {
        Some(('\r', pos + 1))
    } else if s[pos] == 't' {
        Some(('\t', pos + 1))
    } else if s[pos] == 'u' {
        match hex4(s, pos + 1) {
            None => None,
            Some(hi) => if 0xDC00 <= hi <= 0xDFFF {
                None
            } else if 0xD800 <= hi <= 0xDBFF {
                if pos + 7 <= s.len() && s[pos + 5] == '\\' && s[pos + 6] == 'u' {
                    match hex4(s, pos + 7) {
                        Some(lo) => if 0xDC00 <= lo <= 0xDFFF {
                            Some(
                                (
                                    ((0x10000 + (hi - 0xD800) * 0x400 + (lo - 0xDC00)) as u32) as char,
                                    pos + 11,
                                ),
                            )
                        } else {
                            None
                        },
                        None => None,
                    }
                } else {
                    None
                }
            } else {
                Some(((hi as u32) as char, pos + 5))
            },
        }
    } else {
        None
    }
}

/// The characters of a string whose content starts at `pos`, and the index
/// after its closing quote.
pub open spec fn spec_string_body(s: Seq<char>, pos: int) -> Option<(Seq<char>, int)>
    decreases s.len() - pos,
{
    if !(0 <= pos < s.len()) {
        None
    } else if s[pos] == '"' {
        Some((Seq::empty(), pos + 1))
    } else if s[pos] == '\\' {
        match spec_escape(s, pos + 1) {
            Some((c, next)) => if next <= pos {
                None
            } else {
                match spec_string_body(s, next) {
                    Some((rest, end)) => Some((seq![c] + rest, end)),
                    None => None,
                }
            },
            None => None,
        }
    } else {
        match spec_string_body(s, pos + 1) {
            Some((rest, end)) => Some((seq![s[pos]] + rest, end)),
            None => None,
        }
    }
}

/// The string literal at `pos`.
pub open spec fn spec_string(s: Seq<char>, pos: int) -> Option<(Seq<char>, int)> {
    if 0 <= pos < s.len() && s[pos] == '"' {
        spec_string_body(s, pos + 1)
    } else {
        None
    }
}

/// End of the run of letters and numbers that starts at `pos`.
pub open spec fn ident_end(s: Seq<char>, pos: int) -> int
    decreases s.len() - pos,
{
    if 0 <= pos < s.len() && alphanumeric(s[pos]) {
        ident_end(s, pos + 1)
    } else {
        pos
    }
}

/// The key of a member at `pos`: a string literal, or a bare word that
/// starts with a letter.
pub open spec fn spec_key(s: Seq<char>, pos: int) -> Option<(Seq<char>, int)> {
    if !(0 <= pos < s.len()) {
        None
    } else if s[pos] == '"' {
        spec_string(s, pos)
    } else if alphabetic(s[pos]) {
        Some((s.subrange(pos, ident_end(s, pos + 1)), ident_end(s, pos + 1)))
    } else {
        None
    }
}

/// Tells whether the character at `p` starts one of the words `null`, `true`,
/// `false`, `Infinity`, `-Infinity` and `NaN`.
pub open spec fn is_word_start(s: Seq<char>, p: int) -> bool {
    0 <= p < s.len() && (s[p] == 'n' || s[p] == 't' || s[p] == 'f' || s[p] == 'I' || s[p] == 'N'
        || (s[p] == '-' && p + 1 < s.len() && s[p + 1] == 'I'))
}

/// The value of the word at `p`, which must stand there letter for letter.
pub open spec fn spec_word(s: Seq<char>, p: int) -> Parsed {
    if has_word(s, p, "null"@) {
        Ok((Value::Null, p + 4))
    } else if has_word(s, p, "true"@) {
        Ok((Value::Bool(true), p + 4))
    } else if has_word(s, p, "false"@) {
        Ok((Value::Bool(false), p + 5))
    } else if has_word(s, p, "-Infinity"@) {
        Ok((Value::Float(FloatingView::Data(NEG_INFINITY_BITS as int)), p + 9))
    } else if has_word(s, p, "Infinity"@) {
        Ok((Value::Float(FloatingView::Data(INFINITY_BITS as int)), p + 8))
    } else if has_word(s, p, "NaN"@) {
        Ok((Value::Float(FloatingView::Data(NAN_BITS as int)), p + 3))
    } else {
        Err(ErrorKind::ParseFail)
    }
}

/// The value that starts at the first character at or after `pos` that is no
/// white space, and the index after it. Where no value stands there the
/// parse fails; where an integer literal that is too long to defer denotes
/// no integer, the number is invalid.
pub open spec fn spec_value(s: Seq<char>, pos: int) -> Parsed
    decreases s.len() - pos, 2int,
{
    let p = skip_space(s, pos);
    if !(0 <= pos <= p < s.len()) {
        Err(ErrorKind::ParseFail)
    } else if is_word_start(s, p) {
        spec_word(s, p)
    } else if s[p] == '"' {
        match spec_string(s, p) {
            Some((text, end)) => Ok((Value::String(text), end)),
            None => Err(ErrorKind::ParseFail),
        }
    } else if s[p] == '[' {
        spec_array(s, p)
    } else if s[p] == '{' {
        spec_members(s, p + 1, Seq::empty())
    } else if (0x30 <= (s[p] as u32) <= 0x39) || s[p] == '+' || s[p] == '-' || s[p] == '.' || s[p]
        == 'e' || s[p] == 'E' {
        spec_number(s, p)
    } else {
        Err(ErrorKind::ParseFail)
    }
}

/// The array whose opening bracket stands at `p`. A comma may not follow
/// the bracket at once.
pub open spec fn spec_array(s: Seq<char>, p: int) -> Parsed
    decreases s.len() - p, 1int,
{
    let i = skip_space(s, p + 1);
    if !(0 <= p < i <= s.len()) || (i < s.len() && s[i] == ',') {
        Err(ErrorKind::ParseFail)
    } else {
        spec_items(s, i, Seq::empty())
    }
}

/// The rest of an array, `pos` standing at its next item or at its closing
/// bracket, `done` being the items before.
pub open spec fn spec_items(s: Seq<char>, pos: int, done: Seq<Value>) -> Parsed
    decreases s.len() - pos, 3int,
{
    if !(0 <= pos < s.len()) {
        Err(ErrorKind::ParseFail)
    } else if s[pos] == ']' {
        Ok((Value::Array(done), pos + 1))
    } else {
        match spec_value(s, pos) {
            Ok((v, end)) => {
                let j = skip_space(s, end);
                let next = if 0 <= j < s.len() && s[j] == ',' {
                    skip_space(s, j + 1)
                } else {
                    j
                };
                if !(pos < next <= s.len()) {
                    Err(ErrorKind::ParseFail)
                } else {
                    spec_items(s, next, done.push(v))
                }
            },
            Err(k) => Err(k),
        }
    }
}

/// The rest of an object, `pos` standing before its next member or its
/// closing brace, `done` being the members before.
pub open spec fn spec_members(s: Seq<char>, pos: int, done: Seq<Member>) -> Parsed
    decreases s.len() - pos, 3int,
{
    let i = skip_space(s, pos);
    if !(0 <= pos <= i < s.len()) {
        Err(ErrorKind::ParseFail)
    } else if s[i] == '}' {
        Ok((Value::Object(done), i + 1))
    } else {
        match spec_key(s, i) {
            Some((key, after_key)) => {
                let colon = skip_space(s, after_key);
                if i < after_key && after_key <= colon < s.len() && s[colon] == ':' {
                    match spec_value(s, colon + 1) {
                        Ok((v, end)) => {
                            let j = skip_space(s, end);
                            if !(0 <= j < s.len()) {
                                Err(ErrorKind::ParseFail)
                            } else {
                                let next = if s[j] == ',' {
                                    j + 1
                                } else {
                                    j
                                };
                                if next <= pos {
                                    Err(ErrorKind::ParseFail)
                                } else {
                                    spec_members(s, next, upsert(done, Member { key, value: v }))
                                }
                            }
                        },
                        Err(k) => Err(k),
                    }
                } else {
                    Err(ErrorKind::ParseFail)
                }
            },
            None => Err(ErrorKind::ParseFail),
        }
    }
}

/// The value that a text denotes: the first value in it. What follows that
/// value is not looked at. Otherwise the kind of the failure.
pub open spec fn spec_parse(s: Seq<char>) -> Result<Value, ErrorKind> {
    match spec_value(s, 0) {
        Ok((v, _)) => Ok(v),
        Err(k) => Err(k),
    }
}

/// Where and why the parser gave up.
struct Fault {
    at: usize,
    kind: ErrorKind,
    what: &'static str,
}

fn fault<T>(at: usize, what: &'static str) -> (r: Result<T, Fault>)
    ensures
        r is Err,
        r->Err_0.kind == ErrorKind::ParseFail,
{
    Err(Fault { at, kind: ErrorKind::ParseFail, what })
}

fn skip(text: &Vec<char>, pos: usize) -> (r: usize)
    requires
        pos <= text.len(),
    ensures
        r == skip_space(text@, pos as int),
        pos <= r <= text.len(),
{
    let mut i: usize = pos;
    while i < text.len() && char_is_space(text[i])
        invariant
            pos <= i <= text.len(),
            skip_space(text@, pos as int) == skip_space(text@, i as int),
        decreases text.len() - i,
    {
        i = i + 1;
    }
    i
}

fn starts_with(text: &Vec<char>, pos: usize, word: &Vec<char>) -> (r: bool)
    requires
        pos <= text.len(),
    ensures
        r == has_word(text@, pos as int, word@),
{
    if word.len() > text.len() - pos {
        return false;
    }
    let mut i: usize = 0;
    while i < word.len()
        invariant
            i <= word.len(),
            pos + word.len() <= text.len(),
            text@.subrange(pos as int, pos + i) == word@.take(i as int),
        decreases word.len() - i,
    {
        if text[pos + i] != word[i] {
            assert(text@.subrange(pos as int, pos + word.len())[i as int] != word@[i as int]);
            return false;
        }
        i = i + 1;
        assert(text@.subrange(pos as int, pos + i) =~= word@.take(i as int));
    }
    assert(word@.take(i as int) =~= word@);
    true
}

fn classify(c: char) -> (r: NumClass)
    ensures
        r == num_class(c),
{
    let v: u32 = c as u32;
    if v == 0x2E || v == 0x45 || v == 0x65 {
        NumClass::Float
    } else if v == 0x78 {
        NumClass::Hex
    } else if v == 0x2B || v == 0x2D || (0x30 <= v && v <= 0x39) || (0x41 <= v && v <= 0x46) || (
    0x61 <= v && v <= 0x66) {
        NumClass::Plain
    } else {
        NumClass::Stop
    }
}

fn number_at(text: &Vec<char>, pos: usize) -> (r: Result<(Json, usize), Fault>)
    requires
        pos < text.len(),
        !(num_class(text@[pos as int]) is Stop),
    ensures
        match r {
            Ok((v, end)) => spec_number(text@, pos as int) == parsed(v@, end as int) && pos < end
                <= text.len() && v@.plain(),
            Err(e) => spec_number(text@, pos as int) == failed(e.kind),
        },
{
    let mut end: usize = pos;
    let mut is_float = false;
    let mut is_hex = false;
    let mut digits: Vec<char> = Vec::new();
    loop
        invariant
            pos <= end <= text.len(),
            pos < text.len(),
            num_end(text@, pos as int) == num_end(text@, end as int),
            is_float == holds_class(text@, pos as int, end as int, NumClass::Float),
            is_hex == holds_class(text@, pos as int, end as int, NumClass::Hex),
            digits@ == text@.subrange(pos as int, end as int),
            end == pos ==> !(num_class(text@[pos as int]) is Stop),
        ensures
            pos < end <= text.len(),
            end == num_end(text@, pos as int),
            is_float == holds_class(text@, pos as int, end as int, NumClass::Float),
            is_hex == holds_class(text@, pos as int, end as int, NumClass::Hex),
            digits@ == text@.subrange(pos as int, end as int),
        decreases text.len() - end,
    {
        if end >= text.len() {
            break;
        }
        let class = classify(text[end]);
        match class {
            NumClass::Stop => {
                break;
            },
            NumClass::Float => {
                is_float = true;
            },
            NumClass::Hex => {
                is_hex = true;
            },
            NumClass::Plain => {},
        }
        proof {
            let c = num_class(text@[end as int]);
            if holds_class(text@, pos as int, end + 1, NumClass::Float) {
                let w = choose|i: int|
                    pos <= i < end + 1 && 0 <= i < text@.len() && num_class(#[trigger] text@[i])
                        == NumClass::Float;
                if w < end {
                    assert(holds_class(text@, pos as int, end as int, NumClass::Float));
                }
            }
            if holds_class(text@, pos as int, end + 1, NumClass::Hex) {
                let w = choose|i: int|
                    pos <= i < end + 1 && 0 <= i < text@.len() && num_class(#[trigger] text@[i])
                        == NumClass::Hex;
                if w < end {
                    assert(holds_class(text@, pos as int, end as int, NumClass::Hex));
                }
            }
            if holds_class(text@, pos as int, end as int, NumClass::Float) {
                let w = choose|i: int|
                    pos <= i < end && 0 <= i < text@.len() && num_class(#[trigger] text@[i])
                        == NumClass::Float;
                assert(holds_class(text@, pos as int, end + 1, NumClass::Float));
            }
            if holds_class(text@, pos as int, end as int, NumClass::Hex) {
                let w = choose|i: int|
                    pos <= i < end && 0 <= i < text@.len() && num_class(#[trigger] text@[i])
                        == NumClass::Hex;
                assert(holds_class(text@, pos as int, end + 1, NumClass::Hex));
            }
            if c == NumClass::Float {
                assert(num_class(text@[end as int]) == NumClass::Float);
                assert(holds_class(text@, pos as int, end + 1, NumClass::Float));
            }
            if c == NumClass::Hex {
                assert(num_class(text@[end as int]) == NumClass::Hex);
                assert(holds_class(text@, pos as int, end + 1, NumClass::Hex));
            }
        }
        digits.push(text[end]);
        end = end + 1;
        assert(digits@ =~= text@.subrange(pos as int, end as int));
    }
    if is_float && !is_hex {
        Ok((Json::Float(Floating::Text { text: digits, value: None }), end))
    } else {
        match Integral::from_chars(digits) {
            Ok(cell) => Ok((Json::Integer(cell), end)),
            Err(_) => Err(
                Fault { at: pos, kind: ErrorKind::InvalidNumber, what: "invalid number" },
            ),
        }
    }
}

fn hex_value(c: char) -> (r: Option<u32>)
    ensures
        hex_digit(c) == match r {
            Some(v) => Some(v as int),
            None => None,
        },
        r is Some ==> r->0 < 16,
{
    let v: u32 = c as u32;
    if 0x30 <= v && v <= 0x39 {
        Some(v - 0x30)
    } else if 0x41 <= v && v <= 0x46 {
        Some(v - 0x41 + 10)
    } else if 0x61 <= v && v <= 0x66 {
        Some(v - 0x61 + 10)
    } else {
        None
    }
}

fn hex4_at(text: &Vec<char>, pos: usize) -> (r: Option<u32>)
    requires
        pos <= text.len(),
    ensures
        hex4(text@, pos as int) == match r {
            Some(v) => Some(v as int),
            None => None,
        },
        r is Some ==> r->0 <= 0xFFFF && pos + 4 <= text.len(),
{
    if text.len() - pos < 4 {
        return None;
    }
    match (
        hex_value(text[pos]),
        hex_value(text[pos + 1]),
        hex_value(text[pos + 2]),
        hex_value(text[pos + 3]),
    ) {
        (Some(a), Some(b), Some(c), Some(d)) => Some(((a * 16 + b) * 16 + c) * 16 + d),
        _ => None,
    }
}

fn escape_at(text: &Vec<char>, pos: usize) -> (r: Result<(char, usize), Fault>)
    requires
        pos <= text.len(),
    ensures
        match r {
            Ok((c, end)) => spec_escape(text@, pos as int) == Some((c, end as int)) && pos < end
                <= text.len(),
            Err(e) => spec_escape(text@, pos as int) is None && e.kind == ErrorKind::ParseFail,
        },
{
    if pos >= text.len() {
        return fault(pos, "incomplete string");
    }
    let c = text[pos];
    if c == '"' || c == '\\' || c == '/' {
        Ok((c, pos + 1))
    } else if c == 'b' {
        Ok(('\x08', pos + 1))
    } else if c == 'f' {
        Ok(('\x0c', pos + 1))
    } else if c == 'n' {
        Ok(('\n', pos + 1))
    } else if c == 'r' {
        Ok(('\r', pos + 1))
    } else if c == 't' {
        Ok(('\t', pos + 1))
    } else if c == 'u' {
        match hex4_at(text, pos + 1) {
            None => fault(pos, "invalid string escape code"),
            Some(hi) => {
                if 0xDC00 <= hi && hi <= 0xDFFF {
                    fault(pos, "invalid codepoint")
                } else if 0xD800 <= hi && hi <= 0xDBFF {
                    if text.len() - pos >= 7 && text[pos + 5] == '\\' && text[pos + 6] == 'u' {
                        match hex4_at(text, pos + 7) {
                            Some(lo) => {
                                if 0xDC00 <= lo && lo <= 0xDFFF {
                                    let code: u32 = 0x10000 + (hi - 0xD800) * 0x400 + (lo - 0xDC00);
                                    match char::from_u32(code) {
                                        Some(ch) => {
                                            proof {
                                                vstd::utf8::char_u32_cast(ch, code);
                                            }
                                            Ok((ch, pos + 11))
                                        },
                                        None => fault(pos, "invalid codepoint"),
                                    }
                                } else {
                                    fault(pos, "invalid codepoint surrogate")
                                }
                            },
                            None => fault(pos, "invalid string escape code"),
                        }
                    } else {
                        fault(pos, "invalid string escape type")
                    }
                } else {
                    match char::from_u32(hi) {
                        Some(ch) => {
                            proof {
                                vstd::utf8::char_u32_cast(ch, hi);
                            }
                            Ok((ch, pos + 5))
                        },
                        None => fault(pos, "invalid unicode escape"),
                    }
                }
            },
        }
    } else {
        fault(pos, "invalid string escape type")
    }
}

/// Reads the string literal that starts at `pos`.
fn string_at(text: &Vec<char>, pos: usize) -> (r: Result<(String, usize), Fault>)
    requires
        pos < text.len(),
    ensures
        match r {
            Ok((v, end)) => spec_string(text@, pos as int) == Some((v@, end as int)) && pos < end
                <= text.len(),
            Err(e) => spec_string(text@, pos as int) is None && e.kind == ErrorKind::ParseFail,
        },
{
    if text[pos] != '"' {
        return fault(pos, "invalid string");
    }
    let mut out = String::new();
    let mut i: usize = pos + 1;
    loop
        invariant
            pos < i <= text.len(),
            text@[pos as int] == '"',
            match spec_string_body(text@, i as int) {
                Some((rest, end)) => spec_string(text@, pos as int) == Some((out@ + rest, end)),
                None => spec_string(text@, pos as int) is None,
            },
        decreases text.len() - i,
    {
        if i >= text.len() {
            return fault(i, "incomplete string");
        }
        let c = text[i];
        if c == '"' {
            assert(out@ + Seq::<char>::empty() =~= out@);
            return Ok((out, i + 1));
        } else if c == '\\' {
            match escape_at(text, i + 1) {
                Ok((ch, next)) => {
                    proof {
                        match spec_string_body(text@, next as int) {
                            Some((rest, end)) => {
                                assert(out@ + (seq![ch] + rest) =~= out@.push(ch) + rest);
                            },
                            None => {},
                        }
                    }
                    push_char(&mut out, ch);
                    i = next;
                },
                Err(e) => {
                    return Err(e);
                },
            }
        } else {
            proof {
                match spec_string_body(text@, i + 1) {
                    Some((rest, end)) => {
                        assert(out@ + (seq![c] + rest) =~= out@.push(c) + rest);
                    },
                    None => {},
                }
            }
            push_char(&mut out, c);
            i = i + 1;
        }
    }
}

fn ident_end_at(text: &Vec<char>, pos: usize) -> (r: usize)
    requires
        pos <= text.len(),
    ensures
        r == ident_end(text@, pos as int),
        pos <= r <= text.len(),
{
    let mut i: usize = pos;
    while i < text.len() && text[i].is_alphanumeric()
        invariant
            pos <= i <= text.len(),
            ident_end(text@, pos as int) == ident_end(text@, i as int),
        decreases text.len() - i,
    {
        i = i + 1;
    }
    i
}

fn key_at(text: &Vec<char>, pos: usize) -> (r: Result<(String, usize), Fault>)
    requires
        pos < text.len(),
    ensures
        match r {
            Ok((v, end)) => spec_key(text@, pos as int) == Some((v@, end as int)) && pos < end
                <= text.len(),
            Err(e) => spec_key(text@, pos as int) is None && e.kind == ErrorKind::ParseFail,
        },
{
    let c = text[pos];
    if c == '"' {
        string_at(text, pos)
    } else if c.is_alphabetic() {
        let end = ident_end_at(text, pos + 1);
        Ok((string_of(text, pos, end), end))
    } else {
        fault(pos, "invalid property key")
    }
}

fn word_at(text: &Vec<char>, p: usize) -> (r: Result<(Json, usize), Fault>)
    requires
        p < text.len(),
    ensures
        match r {
            Ok((v, end)) => spec_word(text@, p as int) == parsed(v@, end as int) && p < end
                <= text.len() && v@.wf() && v@.plain(),
            Err(e) => spec_word(text@, p as int) == failed(e.kind),
        },
{
    proof {
        reveal_strlit("null");
        reveal_strlit("true");
        reveal_strlit("false");
        reveal_strlit("-Infinity");
        reveal_strlit("Infinity");
        reveal_strlit("NaN");
    }
    if starts_with(text, p, &chars_of("null")) {
        Ok((Json::Null, p + 4))
    } else if starts_with(text, p, &chars_of("true")) {
        Ok((Json::Bool(true), p + 4))
    } else if starts_with(text, p, &chars_of("false")) {
        Ok((Json::Bool(false), p + 5))
    } else if starts_with(text, p, &chars_of("-Infinity")) {
        Ok((Json::Float(Floating::new(NEG_INFINITY_BITS)), p + 9))
    } else if starts_with(text, p, &chars_of("Infinity")) {
        Ok((Json::Float(Floating::new(INFINITY_BITS)), p + 8))
    } else if starts_with(text, p, &chars_of("NaN")) {
        Ok((Json::Float(Floating::new(NAN_BITS)), p + 3))
    } else if text[p] == 'n' {
        fault(p, "expected null")
    } else if text[p] == 't' {
        fault(p, "expected true")
    } else if text[p] == 'f' {
        fault(p, "expected false")
    } else {
        fault(p, "expected json5 float")
    }
}

fn is_word_start_at(text: &Vec<char>, p: usize) -> (r: bool)
    requires
        p < text.len(),
    ensures
        r == is_word_start(text@, p as int),
{
    let c = text[p];
    c == 'n' || c == 't' || c == 'f' || c == 'I' || c == 'N' || (c == '-' && text.len() - p > 1
        && text[p + 1] == 'I')
}

fn is_number_start(c: char) -> (r: bool)
    ensures
        r == ((0x30 <= (c as u32) <= 0x39) || c == '+' || c == '-' || c == '.' || c == 'e' || c
            == 'E'),
        r ==> !(num_class(c) is Stop),
{
    let v: u32 = c as u32;
    (0x30 <= v && v <= 0x39) || c == '+' || c == '-' || c == '.' || c == 'e' || c == 'E'
}

/// Reads the value that starts at or after `pos`.
fn value_at(text: &Vec<char>, pos: usize) -> (r: Result<(Json, usize), Fault>)
    requires
        pos <= text.len(),
    ensures
        match r {
            Ok((v, end)) => spec_value(text@, pos as int) == parsed(v@, end as int) && pos < end
                <= text.len() && v@.wf() && v@.plain(),
            Err(e) => spec_value(text@, pos as int) == failed(e.kind),
        },
    decreases text.len() - pos, 2int,
{
    let p = skip(text, pos);
    if p >= text.len() {
        return fault(p, "unexpected eof");
    }
    let c = text[p];
    if is_word_start_at(text, p) {
        word_at(text, p)
    } else if c == '"' {
        match string_at(text, p) {
            Ok((v, end)) => Ok((Json::String(v), end)),
            Err(e) => Err(e),
        }
    } else if c == '[' {
        array_at(text, p)
    } else if c == '{' {
        object_at(text, p)
    } else if is_number_start(c) {
        number_at(text, p)
    } else {
        fault(p, "invalid token")
    }
}

/// Reads the array whose opening bracket stands at `p`.
fn array_at(text: &Vec<char>, p: usize) -> (r: Result<(Json, usize), Fault>)
    requires
        p < text.len(),
    ensures
        match r {
            Ok((v, end)) => spec_array(text@, p as int) == parsed(v@, end as int) && p < end
                <= text.len() && v@.wf() && v@.plain(),
            Err(e) => spec_array(text@, p as int) == failed(e.kind),
        },
    decreases text.len() - p, 1int,
{
    let first = skip(text, p + 1);
    if first < text.len() && text[first] == ',' {
        return fault(first, "expected ','");
    }
    let mut items: Vec<Json> = Vec::new();
    let mut i: usize = first;
    let ghost mut done: Seq<Value> = Seq::empty();
    loop
        invariant
            p < i <= text.len(),
            done == items_view(items@),
            forall|k: int| 0 <= k < done.len() ==> (#[trigger] done[k]).wf(),
            forall|k: int| 0 <= k < done.len() ==> (#[trigger] done[k]).plain(),
            spec_array(text@, p as int) == spec_items(text@, i as int, done),
        decreases text.len() - i,
    {
        if i >= text.len() {
            return fault(i, "unexpected eof");
        }
        if text[i] == ']' {
            proof {
                lemma_array_view(items);
            }
            return Ok((Json::Array(items), i + 1));
        }
        match value_at(text, i) {
            Err(e) => {
                return Err(e);
            },
            Ok((v, end)) => {
                let j = skip(text, end);
                let next = if j < text.len() && text[j] == ',' {
                    skip(text, j + 1)
                } else {
                    j
                };
                proof {
                    done = done.push(v@);
                }
                items.push(v);
                assert(done =~= items_view(items@));
                i = next;
            },
        }
    }
}

/// Reads the object whose opening brace stands at `p`.
fn object_at(text: &Vec<char>, p: usize) -> (r: Result<(Json, usize), Fault>)
    requires
        p < text.len(),
    ensures
        match r {
            Ok((v, end)) => spec_members(text@, p + 1, Seq::empty()) == parsed(v@, end as int) && p
                < end <= text.len() && v@.wf() && v@.plain(),
            Err(e) => spec_members(text@, p + 1, Seq::empty()) == failed(e.kind),
        },
    decreases text.len() - p, 1int,
{
    let mut props: Vec<Property> = Vec::new();
    let mut i: usize = p + 1;
    let ghost mut done: Seq<Member> = Seq::empty();
    loop
        invariant
            p < i <= text.len(),
            done == members_view(props@),
            sorted(done),
            forall|k: int| 0 <= k < done.len() ==> (#[trigger] done[k]).value.wf(),
            forall|k: int| 0 <= k < done.len() ==> (#[trigger] done[k]).value.plain(),
            spec_members(text@, p + 1, Seq::empty()) == spec_members(text@, i as int, done),
        decreases text.len() - i,
    {
        let start = skip(text, i);
        if start >= text.len() {
            return fault(start, "invalid property key");
        }
        if text[start] == '}' {
            proof {
                lemma_object_view(props);
            }
            return Ok((Json::Object(props), start + 1));
        }
        let (key, after_key) = match key_at(text, start) {
            Ok(found) => found,
            Err(e) => {
                return Err(e);
            },
        };
        let colon = skip(text, after_key);
        if colon >= text.len() {
            return fault(colon, "missing token ':'");
        }
        if text[colon] != ':' {
            return fault(colon, "invalid byte, expected ':'");
        }
        let (v, end) = match value_at(text, colon + 1) {
            Ok(found) => found,
            Err(e) => {
                return Err(e);
            },
        };
        let j = skip(text, end);
        if j >= text.len() {
            return fault(j, "unexpected eof");
        }
        let next = if text[j] == ',' {
            j + 1
        } else {
            j
        };
        let prop = Property { key, value: v };
        proof {
            lemma_upsert_members(done, prop@);
            let out = upsert(done, prop@);
            assert forall|k: int| 0 <= k < out.len() implies (#[trigger] out[k]).value.wf()
                && out[k].value.plain() by {
                if out[k] != prop@ {
                    let w = choose|w: int| 0 <= w < done.len() && done[w] == out[k];
                    assert(done[w].value.wf());
                    assert(done[w].value.plain());
                }
            }
            done = out;
        }
        upsert_object_key(&mut props, prop);
        i = next;
    }
}

/// The message is the description `what`, followed by the position of the
/// character `text[at]` of a text that starts at the position `from`.
pub open spec fn says_where(
    message: Seq<char>,
    from: Lex,
    text: Seq<char>,
    at: int,
    what: Seq<char>,
) -> bool {
    0 <= at <= text.len() && message == lex_after(from, text.take(at)).spec_format(what)
}

/// The message is a short description, followed by the position of a place
/// in the text: its offset, its line and its column.
pub open spec fn located(message: Seq<char>, from: Lex, text: Seq<char>) -> bool {
    exists|at: int, what: Seq<char>| says_where(message, from, text, at, what)
}

/// Parses the first value of `text`. `lex` is the position at which `text`
/// starts in whatever it was taken from; after a success it is the position
/// after the value, after a failure it is what it was.
pub fn parse_value(text: &str, lex: &mut Lex) -> (r: Result<Json, Error>)
    ensures
        match r {
            Ok(v) => match spec_value(text@, 0) {
                Ok((w, end)) => w == v@ && v@.wf() && v@.plain() && *final(lex) == lex_after(
                    *old(lex),
                    text@.take(end),
                ),
                Err(_) => false,
            },
            Err(e) => spec_value(text@, 0) == failed(e@.kind) && e@.origin == "parse"@
                && *final(lex) == *old(lex) && located(e@.message, *old(lex), text@),
        },
{
    let chars = chars_of(text);
    match value_at(&chars, 0) {
        Ok((v, end)) => {
            lex.advance(&chars, 0, end);
            assert(chars@.subrange(0, end as int) =~= text@.take(end as int));
            Ok(v)
        },
        Err(f) => {
            let mut at = *lex;
            let stop = if f.at <= chars.len() {
                f.at
            } else {
                chars.len()
            };
            at.advance(&chars, 0, stop);
            let message = at.format(f.what);
            proof {
                assert(chars@.subrange(0, stop as int) =~= text@.take(stop as int));
                assert(says_where(message@, *old(lex), text@, stop as int, f.what@));
            }
            Err(Error::make(f.kind, "parse", message.as_str()))
        },
    }
}

/// Parses a text: white space, then one value. What follows the value is not
/// looked at.
pub fn parse(text: &str) -> (r: Result<Json, Error>)
    ensures
        match r {
            Ok(v) => spec_parse(text@) == Ok::<Value, ErrorKind>(v@) && v@.wf() && v@.plain(),
            Err(e) => spec_parse(text@) == Err::<Value, ErrorKind>(e@.kind) && e@.origin
                == "parse"@ && located(e@.message, Lex { off: 0, row: 1, col: 1 }, text@),
        },
{
    let mut lex = Lex::new(0, 1, 1);
    parse_value(text, &mut lex)
}

} // verus!
