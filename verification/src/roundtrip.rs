//! The text of a value parses back to the value.

use crate::error::ErrorKind;
use crate::json::{
    fill,
    fill_items,
    fill_members,
    sorted,
    walk,
    walk_items,
    walk_members,
    Member,
    Value,
};
use crate::num::{
    digit_value,
    digits_value,
    integer_of,
    FloatingView,
    IntegralView,
    Reading,
    DEFER_LIMIT,
};
use crate::order::Order;
use crate::parse::{
    has_word,
    hex4,
    hex_digit,
    holds_class,
    is_word_start,
    num_class,
    num_end,
    parsed,
    skip_space,
    spec_array,
    spec_escape,
    spec_items,
    spec_key,
    spec_members,
    spec_number,
    spec_parse,
    spec_string,
    spec_string_body,
    spec_value,
    NumClass,
    Parsed,
};
use crate::property::{lemma_lower_bound_is, upsert};
use crate::render::{
    encoded,
    escaped,
    escaped_all,
    float_bits_of,
    float_bits_of_items,
    float_bits_of_members,
    hex_char,
    integer_text,
    items_text,
    members_text,
    value_text,
};
use crate::text::{byte_len, decimal, digit_char, seq_order, signed_decimal};
use vstd::prelude::*;

verus! {

/// The digits of a numeral are digits, and the numeral denotes its number.
pub proof fn lemma_decimal_reads_back(n: nat)
    ensures
        decimal(n).len() >= 1,
        forall|i: int| 0 <= i < decimal(n).len() ==> 0x30 <= (#[trigger] decimal(n)[i]) as u32 <= 0x39,
        digits_value(decimal(n), 10) == Some(n),
    decreases n,
{
    if n < 10 {
        let d = decimal(n);
        assert(d.drop_last() =~= Seq::<char>::empty());
        assert(digits_value(d.drop_last(), 10) == Some(0nat));
        assert(d.last() == digit_char(n));
        assert(digit_value(d.last(), 10) == Some(n));
        assert(digits_value(d, 10) == Some((0 * 10 + n) as nat));
    } else {
        lemma_decimal_reads_back(n / 10);
        let d = decimal(n);
        let front = decimal(n / 10);
        assert(d.drop_last() =~= front);
        assert(d.last() == digit_char(n % 10));
        assert(digit_value(d.last(), 10) == Some(n % 10));
        assert(digits_value(d, 10) == Some(((n / 10) * 10 + n % 10) as nat));
        assert forall|i: int| 0 <= i < d.len() implies 0x30 <= (#[trigger] d[i]) as u32 <= 0x39 by {
            if i < front.len() {
                assert(d[i] == front[i]);
            }
        }
    }
}

/// The numeral of a 128-bit integer is an integer literal that denotes it:
/// digits after an optional minus sign.
pub proof fn lemma_signed_decimal_reads_back(n: int)
    requires
        i128::MIN <= n <= i128::MAX,
    ensures
        integer_of(signed_decimal(n)) == Some(n),
        signed_decimal(n).len() >= 1,
        forall|i: int|
            0 <= i < signed_decimal(n).len() ==> num_class(#[trigger] signed_decimal(n)[i])
                == NumClass::Plain,
        signed_decimal(n)[0] == '-' || 0x30 <= signed_decimal(n)[0] as u32 <= 0x39,
{
    let t = signed_decimal(n);
    if n < 0 {
        let m = (-n) as nat;
        lemma_decimal_reads_back(m);
        let d = decimal(m);
        assert(t.skip(1) =~= d);
        assert(t[0] == '-');
        assert forall|i: int| 0 <= i < t.len() implies num_class(#[trigger] t[i])
            == NumClass::Plain by {
            if i > 0 {
                assert(t[i] == d[i - 1]);
            }
        }
        assert(t[1] == d[0]);
        if t.len() > 2 {
            assert(t[2] == d[1]);
        }
    } else {
        lemma_decimal_reads_back(n as nat);
    }
}

/// How the computed floats of a value are printed: the text for each bit
/// pattern.
pub type Renderer = spec_fn(int) -> Seq<char>;

/// A text that the parser takes for a float literal: it starts as a number
/// starts, holds number characters only, among them `.`, `e` or `E`, and
/// no `x`.
pub open spec fn float_token(t: Seq<char>) -> bool {
    &&& t.len() >= 1
    &&& (t[0] == '+' || t[0] == '-' || t[0] == '.' || t[0] == 'e' || t[0] == 'E' || 0x30 <= (
    t[0] as u32) <= 0x39)
    &&& forall|i: int| 0 <= i < t.len() ==> !(num_class(#[trigger] t[i]) is Stop)
    &&& forall|i: int| 0 <= i < t.len() ==> !(num_class(#[trigger] t[i]) is Hex)
    &&& exists|i: int| 0 <= i < t.len() && num_class(#[trigger] t[i]) is Float
}

/// A value that a text can stand for in full: null, a boolean, a computed
/// number, a string, or an array or an object of such values, the members
/// of every object sorted by key. Every float in it is printed as a float
/// literal.
pub open spec fn printable(v: Value, r: Renderer) -> bool
    decreases v,
{
    match v {
        Value::Null => true,
        Value::Bool(_) => true,
        Value::String(_) => true,
        Value::Integer(IntegralView::Data(n)) => i128::MIN <= n <= i128::MAX,
        Value::Float(FloatingView::Data(b)) => float_token(r(b)),
        Value::Array(items) => forall|i: int|
            0 <= i < items.len() ==> printable(#[trigger] items[i], r),
        Value::Object(members) => sorted(members) && forall|i: int|
            0 <= i < members.len() ==> printable((#[trigger] members[i]).value, r),
        _ => false,
    }
}

/// The parts of a printable value are printable.
pub proof fn lemma_printable_parts(v: Value, r: Renderer)
    requires
        printable(v, r),
    ensures
        v is Object ==> sorted(v->Object_0) && forall|i: int|
            0 <= i < v->Object_0.len() ==> printable((#[trigger] v->Object_0[i]).value, r),
        v is Array ==> forall|i: int|
            0 <= i < v->Array_0.len() ==> printable(#[trigger] v->Array_0[i], r),
{
}

/// The texts of the items `items[k..n]` with a comma between each two.
pub open spec fn joined(items: Seq<Value>, k: int, n: int, r: Renderer) -> Seq<char>
    decreases items, n - k,
{
    if k < 0 || k >= n || n > items.len() {
        Seq::empty()
    } else {
        text_of(items[k], r) + (if k + 1 < n {
            seq![',']
        } else {
            Seq::empty()
        }) + joined(items, k + 1, n, r)
    }
}

/// The texts of the members `members[k..n]` with a comma between each two.
pub open spec fn joined_members(members: Seq<Member>, k: int, n: int, r: Renderer) -> Seq<char>
    decreases members, n - k,
{
    if k < 0 || k >= n || n > members.len() {
        Seq::empty()
    } else {
        encoded(members[k].key) + seq![':'] + text_of(members[k].value, r) + (if k + 1 < n {
            seq![',']
        } else {
            Seq::empty()
        }) + joined_members(members, k + 1, n, r)
    }
}

/// The compact text of a printable value.
pub open spec fn text_of(v: Value, r: Renderer) -> Seq<char>
    decreases v, 0int,
{
    match v {
        Value::Null => "null"@,
        Value::Bool(true) => "true"@,
        Value::Bool(false) => "false"@,
        Value::Integer(c) => integer_text(c),
        Value::Float(FloatingView::Data(b)) => r(b),
        Value::String(s) => encoded(s),
        Value::Array(items) => seq!['['] + joined(items, 0, items.len() as int, r) + seq![']'],
        Value::Object(members) => seq!['{'] + joined_members(members, 0, members.len() as int, r)
            + seq!['}'],
        _ => Seq::empty(),
    }
}

/// Joining up to `n` is joining up to `n - 1` and adding the last item.
pub proof fn lemma_joined_last(items: Seq<Value>, k: int, n: int, r: Renderer)
    requires
        0 <= k < n <= items.len(),
    ensures
        joined(items, k, n, r) == joined(items, k, n - 1, r) + (if k < n - 1 {
            seq![',']
        } else {
            Seq::empty()
        }) + text_of(items[n - 1], r),
    decreases n - k,
{
    if k + 1 < n {
        lemma_joined_last(items, k + 1, n, r);
        let head = text_of(items[k], r);
        let comma = seq![','];
        let a = joined(items, k + 1, n - 1, r);
        let mid: Seq<char> = if k + 1 < n - 1 {
            seq![',']
        } else {
            Seq::empty()
        };
        let last = text_of(items[n - 1], r);
        assert(joined(items, k, n, r) == head + comma + joined(items, k + 1, n, r));
        assert(joined(items, k, n - 1, r) == head + mid + a);
        assert(head + comma + (a + mid + last) =~= (head + mid + a) + comma + last) by {
            if k + 1 < n - 1 {
            } else {
                assert(a =~= Seq::<char>::empty());
            }
        }
    } else {
        assert(joined(items, k, n - 1, r) =~= Seq::<char>::empty());
        assert(joined(items, k + 1, n, r) =~= Seq::<char>::empty());
        assert(joined(items, k, n, r) =~= joined(items, k, n - 1, r) + Seq::<char>::empty() + text_of(
            items[n - 1],
            r,
        ));
    }
}

/// As [`lemma_joined_last`], for members.
pub proof fn lemma_joined_members_last(members: Seq<Member>, k: int, n: int, r: Renderer)
    requires
        0 <= k < n <= members.len(),
    ensures
        joined_members(members, k, n, r) == joined_members(members, k, n - 1, r) + (if k < n - 1 {
            seq![',']
        } else {
            Seq::empty()
        }) + (encoded(members[n - 1].key) + seq![':'] + text_of(members[n - 1].value, r)),
    decreases n - k,
{
    if k + 1 < n {
        lemma_joined_members_last(members, k + 1, n, r);
        let head = encoded(members[k].key) + seq![':'] + text_of(members[k].value, r);
        let comma = seq![','];
        let a = joined_members(members, k + 1, n - 1, r);
        let mid: Seq<char> = if k + 1 < n - 1 {
            seq![',']
        } else {
            Seq::empty()
        };
        let last = encoded(members[n - 1].key) + seq![':'] + text_of(members[n - 1].value, r);
        assert(joined_members(members, k, n, r) == head + comma + joined_members(members, k + 1, n, r));
        assert(joined_members(members, k, n - 1, r) == head + mid + a);
        assert(head + comma + (a + mid + last) =~= (head + mid + a) + comma + last) by {
            if k + 1 < n - 1 {
            } else {
                assert(a =~= Seq::<char>::empty());
            }
        }
    } else {
        assert(joined_members(members, k, n - 1, r) =~= Seq::<char>::empty());
        assert(joined_members(members, k + 1, n, r) =~= Seq::<char>::empty());
        let last = encoded(members[n - 1].key) + seq![':'] + text_of(members[n - 1].value, r);
        assert(joined_members(members, k, n, r) =~= joined_members(members, k, n - 1, r) + Seq::<
            char,
        >::empty() + last);
    }
}

/// The renderings of a list of floats.
pub open spec fn renderings_of(bits: Seq<int>, r: Renderer) -> Seq<Seq<char>> {
    Seq::new(bits.len(), |i: int| r(bits[i]))
}

/// The readings that a list of floats stands for.
pub open spec fn readings_of(bits: Seq<int>) -> Seq<Reading> {
    Seq::new(bits.len(), |i: int| Reading::Bits(bits[i]))
}

/// The text that the library writes for a printable value, given the
/// renderings of its computed floats, is its compact text, and exactly
/// those renderings are used for it.
pub proof fn lemma_text_is_written(v: Value, rest: Seq<Seq<char>>, r: Renderer)
    requires
        printable(v, r),
    ensures
        value_text(v, renderings_of(float_bits_of(v), r) + rest) == Some((text_of(v, r), rest)),
    decreases v, 0int,
{
    lemma_printable_parts(v, r);
    let fl = renderings_of(float_bits_of(v), r) + rest;
    match v {
        Value::Float(FloatingView::Data(b)) => {
            assert(fl[0] == r(b));
            assert(fl.drop_first() =~= rest);
        },
        Value::Array(items) => {
            lemma_items_are_written(items, items.len() as int, rest, r);
        },
        Value::Object(members) => {
            lemma_members_are_written(members, members.len() as int, rest, r);
        },
        _ => {
            assert(fl =~= rest);
        },
    }
}

/// As [`lemma_text_is_written`], for the first `n` items of an array.
pub proof fn lemma_items_are_written(items: Seq<Value>, n: int, rest: Seq<Seq<char>>, r: Renderer)
    requires
        0 <= n <= items.len(),
        forall|i: int| 0 <= i < items.len() ==> printable(#[trigger] items[i], r),
    ensures
        items_text(items, n, renderings_of(float_bits_of_items(items, n), r) + rest) == Some(
            (joined(items, 0, n, r), rest),
        ),
    decreases items, n,
{
    let fl = renderings_of(float_bits_of_items(items, n), r) + rest;
    if n > 0 {
        let last = renderings_of(float_bits_of(items[n - 1]), r);
        let before = renderings_of(float_bits_of_items(items, n - 1), r);
        assert(fl =~= before + (last + rest));
        lemma_items_are_written(items, n - 1, last + rest, r);
        lemma_text_is_written(items[n - 1], rest, r);
        lemma_joined_last(items, 0, n, r);
        if n == 1 {
            assert(joined(items, 0, 0, r) =~= Seq::<char>::empty());
            assert(joined(items, 0, 1, r) =~= text_of(items[0], r));
        }
    } else {
        assert(fl =~= rest);
        assert(joined(items, 0, 0, r) =~= Seq::<char>::empty());
    }
}

/// As [`lemma_text_is_written`], for the first `n` members of an object.
pub proof fn lemma_members_are_written(
    members: Seq<Member>,
    n: int,
    rest: Seq<Seq<char>>,
    r: Renderer,
)
    requires
        0 <= n <= members.len(),
        forall|i: int| 0 <= i < members.len() ==> printable((#[trigger] members[i]).value, r),
    ensures
        members_text(members, n, renderings_of(float_bits_of_members(members, n), r) + rest)
            == Some((joined_members(members, 0, n, r), rest)),
    decreases members, n,
{
    let fl = renderings_of(float_bits_of_members(members, n), r) + rest;
    if n > 0 {
        let last_fl = renderings_of(float_bits_of(members[n - 1].value), r);
        let before_fl = renderings_of(float_bits_of_members(members, n - 1), r);
        assert(fl =~= before_fl + (last_fl + rest));
        lemma_members_are_written(members, n - 1, last_fl + rest, r);
        lemma_text_is_written(members[n - 1].value, rest, r);
        lemma_joined_members_last(members, 0, n, r);
        let last = encoded(members[n - 1].key) + seq![':'] + text_of(members[n - 1].value, r);
        if n == 1 {
            assert(joined_members(members, 0, 0, r) =~= Seq::<char>::empty());
            assert(joined_members(members, 0, 1, r) =~= last);
        } else {
            let before = joined_members(members, 0, n - 1, r);
            assert(before + seq![','] + encoded(members[n - 1].key) + seq![':'] + text_of(
                members[n - 1].value,
                r,
            ) =~= before + seq![','] + last);
        }
    } else {
        assert(fl =~= rest);
        assert(joined_members(members, 0, 0, r) =~= Seq::<char>::empty());
    }
}

/// The text `t` stands in `s` at `p`.
pub open spec fn stands_at(s: Seq<char>, p: int, t: Seq<char>) -> bool {
    0 <= p && p + t.len() <= s.len() && s.subrange(p, p + t.len()) == t
}

/// Where a text stands, its characters stand.
pub proof fn lemma_stands_chars(s: Seq<char>, p: int, t: Seq<char>)
    requires
        stands_at(s, p, t),
    ensures
        forall|i: int| 0 <= i < t.len() ==> s[p + i] == #[trigger] t[i],
{
    assert forall|i: int| 0 <= i < t.len() implies s[p + i] == #[trigger] t[i] by {
        assert(s.subrange(p, p + t.len())[i] == s[p + i]);
    }
}

/// Where two texts stand in a row, each of them stands.
pub proof fn lemma_stands_split(s: Seq<char>, p: int, a: Seq<char>, b: Seq<char>)
    requires
        stands_at(s, p, a + b),
    ensures
        stands_at(s, p, a),
        stands_at(s, p + a.len(), b),
{
    lemma_stands_chars(s, p, a + b);
    assert(s.subrange(p, p + a.len()) =~= a) by {
        assert forall|i: int| 0 <= i < a.len() implies s.subrange(p, p + a.len())[i] == a[i] by {
            assert((a + b)[i] == a[i]);
        }
    }
    assert(s.subrange(p + a.len(), p + a.len() + b.len()) =~= b) by {
        assert forall|i: int| 0 <= i < b.len() implies s.subrange(
            p + a.len(),
            p + a.len() + b.len(),
        )[i] == b[i] by {
            assert((a + b)[a.len() + i] == b[i]);
        }
    }
}

/// The escaping of a string starts with the escaping of its first
/// character.
pub proof fn lemma_escaped_front(str: Seq<char>)
    requires
        str.len() > 0,
    ensures
        escaped_all(str) == escaped(str[0]) + escaped_all(str.drop_first()),
    decreases str.len(),
{
    if str.len() == 1 {
        assert(str.drop_last() =~= Seq::<char>::empty());
        assert(str.drop_first() =~= Seq::<char>::empty());
        assert(escaped_all(str) =~= escaped(str[0]) + escaped_all(str.drop_first()));
    } else {
        lemma_escaped_front(str.drop_last());
        assert(str.drop_last().drop_first() =~= str.drop_first().drop_last());
        assert(str.drop_last()[0] == str[0]);
        assert(str.drop_first().last() == str.last());
        assert(escaped_all(str) =~= escaped(str[0]) + escaped_all(str.drop_first()));
    }
}

/// A hexadecimal digit reads back as its value.
pub proof fn lemma_hex_char_reads_back(d: int)
    requires
        0 <= d < 16,
    ensures
        hex_digit(hex_char(d)) == Some(d),
{
}

/// What stands in a text for one character of a string reads back as that
/// character.
pub proof fn lemma_escaped_reads_back(s: Seq<char>, p: int, c: char)
    requires
        stands_at(s, p, escaped(c)),
    ensures
        s[p] != '"',
        escaped(c).len() == 1 ==> s[p] == c && s[p] != '\\',
        escaped(c).len() > 1 ==> s[p] == '\\' && spec_escape(s, p + 1) == Some(
            (c, p + escaped(c).len()),
        ),
{
    let e = escaped(c);
    let v = c as u32;
    lemma_stands_chars(s, p, e);
    assert(s[p] == e[0]);
    if e.len() == 2 {
        assert(s[p + 1] == e[1]);
        if v == 0x08 {
            vstd::utf8::char_u32_cast(c, 0x08);
        } else if v == 0x09 {
            vstd::utf8::char_u32_cast(c, 0x09);
        } else if v == 0x0A {
            vstd::utf8::char_u32_cast(c, 0x0A);
        } else if v == 0x0C {
            vstd::utf8::char_u32_cast(c, 0x0C);
        } else if v == 0x0D {
            vstd::utf8::char_u32_cast(c, 0x0D);
        } else if v == 0x22 {
            vstd::utf8::char_u32_cast(c, 0x22);
        } else {
            vstd::utf8::char_u32_cast(c, 0x5C);
        }
    } else if e.len() == 6 {
        assert(s[p + 1] == e[1]);
        assert(s[p + 2] == e[2]);
        assert(s[p + 3] == e[3]);
        assert(s[p + 4] == e[4]);
        assert(s[p + 5] == e[5]);
        lemma_hex_char_reads_back(v as int / 16);
        lemma_hex_char_reads_back(v as int % 16);
        assert(hex_digit('0') == Some(0int));
        assert(hex4(s, p + 2) == Some(v as int));
        vstd::utf8::char_u32_cast(c, v);
    } else {
        assert(e.len() == 1);
    }
}

/// The escaping of a string, followed by a quote, reads back as the string.
pub proof fn lemma_string_body_reads_back(s: Seq<char>, p: int, str: Seq<char>)
    requires
        stands_at(s, p, escaped_all(str) + seq!['"']),
    ensures
        spec_string_body(s, p) == Some((str, p + escaped_all(str).len() + 1)),
    decreases str.len(),
{
    let all = escaped_all(str);
    if str.len() == 0 {
        lemma_stands_chars(s, p, all + seq!['"']);
        assert(s[p] == (all + seq!['"'])[0]);
        assert(str =~= Seq::<char>::empty());
    } else {
        let c = str[0];
        let rest = str.drop_first();
        let e = escaped(c);
        let tail = escaped_all(rest);
        lemma_escaped_front(str);
        assert(all + seq!['"'] =~= e + (tail + seq!['"']));
        lemma_stands_split(s, p, e, tail + seq!['"']);
        lemma_escaped_reads_back(s, p, c);
        lemma_string_body_reads_back(s, p + e.len(), rest);
        assert(seq![c] + rest =~= str);
    }
}

/// The string literal for a string reads back as the string.
pub proof fn lemma_string_reads_back(s: Seq<char>, p: int, str: Seq<char>)
    requires
        stands_at(s, p, encoded(str)),
    ensures
        spec_string(s, p) == Some((str, p + encoded(str).len())),
{
    let all = escaped_all(str);
    assert(encoded(str) =~= seq!['"'] + (all + seq!['"']));
    lemma_stands_split(s, p, seq!['"'], all + seq!['"']);
    lemma_stands_chars(s, p, seq!['"']);
    assert(s[p] == seq!['"'][0]);
    lemma_string_body_reads_back(s, p + 1, str);
}

/// A character with which the text of a value can start.
pub open spec fn starts_value(c: char) -> bool {
    c == 'n' || c == 't' || c == 'f' || c == '-' || c == '+' || c == '.' || c == 'e' || c == 'E'
        || (0x30 <= (c as u32) <= 0x39) || c == '"' || c == '[' || c == '{'
}

/// The text of a printable value is not empty and starts with a character
/// that starts a value.
pub proof fn lemma_text_starts(v: Value, r: Renderer)
    requires
        printable(v, r),
    ensures
        text_of(v, r).len() >= 1,
        starts_value(text_of(v, r)[0]),
{
    reveal_strlit("null");
    reveal_strlit("true");
    reveal_strlit("false");
    match v {
        Value::Integer(IntegralView::Data(n)) => {
            lemma_signed_decimal_reads_back(n);
        },
        _ => {},
    }
}

/// A run of number characters that ends at the end of the text, or before a
/// character that belongs to no number, is the whole number.
pub proof fn lemma_num_end_is(s: Seq<char>, p: int, k: int)
    requires
        0 <= p,
        0 <= k,
        p + k <= s.len(),
        forall|i: int| p <= i < p + k ==> !(num_class(#[trigger] s[i]) is Stop),
        p + k == s.len() || num_class(s[p + k]) is Stop,
    ensures
        num_end(s, p) == p + k,
    decreases k,
{
    if k > 0 {
        assert(!(num_class(s[p]) is Stop));
        lemma_num_end_is(s, p + 1, k - 1);
    }
}

/// The value as the parser leaves it: every integer still a literal, where
/// the literal is short enough to be deferred.
pub open spec fn deferred(v: Value, r: Renderer) -> Value
    decreases v,
{
    match v {
        Value::Integer(IntegralView::Data(n)) => if byte_len(signed_decimal(n)) < DEFER_LIMIT {
            Value::Integer(IntegralView::Text(signed_decimal(n)))
        } else {
            v
        },
        Value::Float(FloatingView::Data(b)) => Value::Float(
            FloatingView::Text(r(b), Reading::Missing),
        ),
        Value::Array(items) => Value::Array(
            Seq::new(
                items.len(),
                |i: int|
                    if 0 <= i < items.len() {
                        deferred(items[i], r)
                    } else {
                        Value::Null
                    },
            ),
        ),
        Value::Object(members) => Value::Object(
            Seq::new(
                members.len(),
                |i: int|
                    if 0 <= i < members.len() {
                        Member { key: members[i].key, value: deferred(members[i].value, r) }
                    } else {
                        Member { key: Seq::empty(), value: Value::Null }
                    },
            ),
        ),
        _ => v,
    }
}

/// The numeral of an integer, standing before the end of the text or before
/// a character that belongs to no number, is read as that integer, deferred.
pub proof fn lemma_number_reads_back(s: Seq<char>, p: int, n: int, r: Renderer)
    requires
        i128::MIN <= n <= i128::MAX,
        stands_at(s, p, signed_decimal(n)),
        p + signed_decimal(n).len() == s.len() || num_class(s[p + signed_decimal(n).len()]) is Stop,
    ensures
        spec_number(s, p) == parsed(deferred(Value::Integer(IntegralView::Data(n)), r), p + signed_decimal(n).len()),
{
    let t = signed_decimal(n);
    lemma_signed_decimal_reads_back(n);
    lemma_stands_chars(s, p, t);
    assert forall|i: int| p <= i < p + t.len() implies !(num_class(#[trigger] s[i]) is Stop) by {
        assert(s[i] == t[i - p]);
    }
    lemma_num_end_is(s, p, t.len() as int);
    let end = p + t.len();
    assert(!holds_class(s, p, end, NumClass::Float)) by {
        if holds_class(s, p, end, NumClass::Float) {
            let w = choose|i: int|
                p <= i < end && 0 <= i < s.len() && num_class(#[trigger] s[i]) == NumClass::Float;
            assert(s[w] == t[w - p]);
        }
    }
}

/// The items `items[..k]` as the parser leaves them.
pub open spec fn deferred_items(items: Seq<Value>, k: int, r: Renderer) -> Seq<Value> {
    Seq::new(k as nat, |i: int| deferred(items[i], r))
}

/// The members `members[..k]` as the parser leaves them.
pub open spec fn deferred_members(members: Seq<Member>, k: int, r: Renderer) -> Seq<Member> {
    Seq::new(k as nat, |i: int| Member { key: members[i].key, value: deferred(members[i].value, r) })
}

/// A character that can follow the text of a value inside a container, or
/// nothing at the end of the text.
pub open spec fn ends_value(s: Seq<char>, p: int) -> bool {
    p == s.len() || (0 <= p < s.len() && (s[p] == ',' || s[p] == ']' || s[p] == '}'))
}

/// One of the words `null`, `true` and `false` reads back as its value.
pub proof fn lemma_word_reads_back(s: Seq<char>, p: int, v: Value, r: Renderer)
    requires
        v is Null || v is Bool,
        stands_at(s, p, text_of(v, r)),
    ensures
        spec_value(s, p) == parsed(v, p + text_of(v, r).len()),
{
    reveal_strlit("null");
    reveal_strlit("true");
    reveal_strlit("false");
    reveal_strlit("-Infinity");
    reveal_strlit("Infinity");
    reveal_strlit("NaN");
    let t = text_of(v, r);
    lemma_stands_chars(s, p, t);
    assert(s[p] == t[0]);
    assert(has_word(s, p, t));
    if has_word(s, p, "null"@) {
        assert(s.subrange(p, p + 4)[0] == 'n');
    }
    if has_word(s, p, "true"@) {
        assert(s.subrange(p, p + 4)[0] == 't');
    }
    if has_word(s, p, "false"@) {
        assert(s.subrange(p, p + 5)[0] == 'f');
    }
    assert(is_word_start(s, p));
    assert(skip_space(s, p) == p);
}

/// The numeral of an integer reads back as the integer, deferred.
pub proof fn lemma_integer_value_reads_back(s: Seq<char>, p: int, n: int, r: Renderer)
    requires
        i128::MIN <= n <= i128::MAX,
        stands_at(s, p, signed_decimal(n)),
        ends_value(s, p + signed_decimal(n).len()),
    ensures
        spec_value(s, p) == parsed(deferred(Value::Integer(IntegralView::Data(n)), r), p + signed_decimal(n).len()),
{
    let t = signed_decimal(n);
    lemma_signed_decimal_reads_back(n);
    lemma_stands_chars(s, p, t);
    assert(s[p] == t[0]);
    assert(skip_space(s, p) == p);
    if t[0] == '-' {
        assert(s[p + 1] == t[1]);
        assert(num_class(t[1]) == NumClass::Plain);
    }
    assert(!is_word_start(s, p));
    lemma_number_reads_back(s, p, n, r);
}

/// A float literal, standing before the end of the text or before a comma
/// or a closing bracket, is read as a deferred float with that literal.
pub proof fn lemma_float_value_reads_back(s: Seq<char>, p: int, t: Seq<char>)
    requires
        float_token(t),
        stands_at(s, p, t),
        ends_value(s, p + t.len()),
    ensures
        spec_value(s, p) == parsed(Value::Float(FloatingView::Text(t, Reading::Missing)), p + t.len()),
{
    lemma_stands_chars(s, p, t);
    assert(s[p] == t[0]);
    assert(skip_space(s, p) == p);
    if t[0] == '-' && t.len() > 1 {
        assert(s[p + 1] == t[1]);
        assert(!(num_class(t[1]) is Stop));
    }
    assert(!is_word_start(s, p));
    assert forall|i: int| p <= i < p + t.len() implies !(num_class(#[trigger] s[i]) is Stop) by {
        assert(s[i] == t[i - p]);
    }
    lemma_num_end_is(s, p, t.len() as int);
    let end = p + t.len();
    let w = choose|i: int| 0 <= i < t.len() && num_class(#[trigger] t[i]) is Float;
    assert(s[p + w] == t[w]);
    assert(holds_class(s, p, end, NumClass::Float));
    assert(!holds_class(s, p, end, NumClass::Hex)) by {
        if holds_class(s, p, end, NumClass::Hex) {
            let h = choose|i: int|
                p <= i < end && 0 <= i < s.len() && num_class(#[trigger] s[i]) == NumClass::Hex;
            assert(s[h] == t[h - p]);
        }
    }
}

/// The literal of a string reads back as the string.
pub proof fn lemma_string_value_reads_back(s: Seq<char>, p: int, str: Seq<char>)
    requires
        stands_at(s, p, encoded(str)),
    ensures
        spec_value(s, p) == parsed(Value::String(str), p + encoded(str).len()),
{
    lemma_stands_chars(s, p, encoded(str));
    assert(s[p] == encoded(str)[0]);
    assert(skip_space(s, p) == p);
    assert(!is_word_start(s, p));
    lemma_string_reads_back(s, p, str);
}

/// The compact text of a printable value, standing before the end of the
/// text or before a comma or a closing bracket, reads back as the value,
/// its integers deferred.
pub proof fn lemma_value_reads_back(s: Seq<char>, p: int, v: Value, r: Renderer)
    requires
        printable(v, r),
        stands_at(s, p, text_of(v, r)),
        ends_value(s, p + text_of(v, r).len()),
    ensures
        spec_value(s, p) == parsed(deferred(v, r), p + text_of(v, r).len()),
    decreases v, 1int,
{
    match v {
        Value::Null => {
            lemma_word_reads_back(s, p, v, r);
        },
        Value::Bool(_) => {
            lemma_word_reads_back(s, p, v, r);
        },
        Value::Integer(IntegralView::Data(n)) => {
            lemma_integer_value_reads_back(s, p, n, r);
        },
        Value::Float(FloatingView::Data(b)) => {
            lemma_float_value_reads_back(s, p, r(b));
        },
        Value::String(str) => {
            lemma_string_value_reads_back(s, p, str);
        },
        Value::Array(items) => {
            lemma_array_reads_back(s, p, items, r);
        },
        Value::Object(members) => {
            lemma_object_reads_back(s, p, members, r);
        },
        _ => {},
    }
}

/// The compact text of an array of printable values reads back as the
/// array.
pub proof fn lemma_array_reads_back(s: Seq<char>, p: int, items: Seq<Value>, r: Renderer)
    requires
        printable(Value::Array(items), r),
        stands_at(s, p, text_of(Value::Array(items), r)),
    ensures
        spec_value(s, p) == parsed(deferred(Value::Array(items), r), p + text_of(Value::Array(items), r).len()),
    decreases Value::Array(items), 0int,
{
    let v = Value::Array(items);
    let t = text_of(v, r);
    let n = items.len() as int;
    let tail = joined(items, 0, n, r) + seq![']'];
    lemma_printable_parts(v, r);
    assert(v->Array_0 == items);
    assert(t =~= seq!['['] + tail);
    lemma_stands_split(s, p, seq!['['], tail);
    lemma_stands_chars(s, p, seq!['[']);
    assert(s[p] == seq!['['][0]);
    assert(skip_space(s, p) == p);
    assert(!is_word_start(s, p));
    lemma_stands_chars(s, p + 1, tail);
    if n > 0 {
        lemma_text_starts(items[0], r);
        assert(tail[0] == text_of(items[0], r)[0]);
    } else {
        assert(joined(items, 0, n, r) =~= Seq::<char>::empty());
    }
    assert(s[p + 1] == tail[0]);
    assert(skip_space(s, p + 1) == p + 1);
    assert(deferred_items(items, 0, r) =~= Seq::<Value>::empty());
    lemma_items_read_back(s, p + 1, items, 0, r);
    assert(deferred(v, r)->Array_0 =~= deferred_items(items, n, r));
    assert(spec_array(s, p) == spec_items(s, p + 1, Seq::empty()));
}

/// The compact text of an object of printable values, its members sorted,
/// reads back as the object.
pub proof fn lemma_object_reads_back(s: Seq<char>, p: int, members: Seq<Member>, r: Renderer)
    requires
        printable(Value::Object(members), r),
        stands_at(s, p, text_of(Value::Object(members), r)),
    ensures
        spec_value(s, p) == parsed(deferred(Value::Object(members), r), p + text_of(Value::Object(members), r).len()),
    decreases Value::Object(members), 0int,
{
    let v = Value::Object(members);
    let t = text_of(v, r);
    let n = members.len() as int;
    let tail = joined_members(members, 0, n, r) + seq!['}'];
    lemma_printable_parts(v, r);
    assert(v->Object_0 == members);
    assert(t =~= seq!['{'] + tail);
    lemma_stands_split(s, p, seq!['{'], tail);
    lemma_stands_chars(s, p, seq!['{']);
    assert(s[p] == seq!['{'][0]);
    assert(skip_space(s, p) == p);
    assert(!is_word_start(s, p));
    assert(deferred_members(members, 0, r) =~= Seq::<Member>::empty());
    lemma_members_read_back(s, p + 1, members, 0, r);
    assert(deferred(v, r)->Object_0 =~= deferred_members(members, n, r));
}

/// The compact texts of the items `items[k..]`, standing at `q` and
/// followed by the closing bracket, read back as the rest of the array.
pub proof fn lemma_items_read_back(s: Seq<char>, q: int, items: Seq<Value>, k: int, r: Renderer)
    requires
        0 <= k <= items.len(),
        forall|i: int| 0 <= i < items.len() ==> printable(#[trigger] items[i], r),
        stands_at(s, q, joined(items, k, items.len() as int, r) + seq![']']),
    ensures
        spec_items(s, q, deferred_items(items, k, r)) == parsed(Value::Array(deferred_items(items, items.len() as int, r)),
                q + joined(items, k, items.len() as int, r).len() + 1,),
    decreases items, items.len() - k,
{
    let n = items.len() as int;
    let tail = joined(items, k, n, r) + seq![']'];
    let done = deferred_items(items, k, r);
    lemma_stands_chars(s, q, tail);
    if k == n {
        assert(joined(items, k, n, r) =~= Seq::<char>::empty());
        assert(s[q] == tail[0]);
    } else {
        let x = items[k];
        let t = text_of(x, r);
        let sep: Seq<char> = if k + 1 < n {
            seq![',']
        } else {
            Seq::empty()
        };
        let more = joined(items, k + 1, n, r) + seq![']'];
        lemma_text_starts(x, r);
        assert(tail =~= t + (sep + more));
        lemma_stands_split(s, q, t, sep + more);
        let end = q + t.len();
        lemma_stands_split(s, end, sep, more);
        lemma_stands_chars(s, end, sep + more);
        assert(s[q] == tail[0]);
        assert(tail[0] == t[0]);
        assert(s[end] == (sep + more)[0]);
        if k + 1 < n {
            assert((sep + more)[0] == ',');
            lemma_text_starts(items[k + 1], r);
            lemma_stands_chars(s, end + 1, more);
            assert(more[0] == text_of(items[k + 1], r)[0]);
            assert(s[end + 1] == more[0]);
            assert(skip_space(s, end + 1) == end + 1);
        } else {
            assert(joined(items, k + 1, n, r) =~= Seq::<char>::empty());
            assert((sep + more)[0] == ']');
        }
        lemma_value_reads_back(s, q, x, r);
        assert(skip_space(s, end) == end);
        assert(done.push(deferred(x, r)) =~= deferred_items(items, k + 1, r));
        let next = end + sep.len();
        lemma_items_read_back(s, next, items, k + 1, r);
        assert(q + joined(items, k, n, r).len() + 1 == next + joined(items, k + 1, n, r).len() + 1) by {
            assert(joined(items, k, n, r) == t + sep + joined(items, k + 1, n, r));
        }
    }
}

/// A member whose key lies after the keys of all members before it is put
/// at their end.
pub proof fn lemma_upsert_appends(done: Seq<Member>, m: Member)
    requires
        forall|i: int| 0 <= i < done.len() ==> seq_order(#[trigger] done[i].key, m.key)
            == Order::Less,
    ensures
        upsert(done, m) == done.push(m),
{
    lemma_lower_bound_is(done, m.key, done.len() as int);
    assert(done.insert(done.len() as int, m) =~= done.push(m));
}

/// The compact texts of the members `members[k..]`, standing at `q` and
/// followed by the closing brace, read back as the rest of the object.
pub proof fn lemma_members_read_back(s: Seq<char>, q: int, members: Seq<Member>, k: int, r: Renderer)
    requires
        0 <= k <= members.len(),
        sorted(members),
        forall|i: int| 0 <= i < members.len() ==> printable((#[trigger] members[i]).value, r),
        stands_at(s, q, joined_members(members, k, members.len() as int, r) + seq!['}']),
    ensures
        spec_members(s, q, deferred_members(members, k, r)) == parsed(Value::Object(deferred_members(members, members.len() as int, r)),
                q + joined_members(members, k, members.len() as int, r).len() + 1,),
    decreases members, members.len() - k,
{
    let n = members.len() as int;
    let tail = joined_members(members, k, n, r) + seq!['}'];
    let done = deferred_members(members, k, r);
    lemma_stands_chars(s, q, tail);
    if k == n {
        assert(joined_members(members, k, n, r) =~= Seq::<char>::empty());
        assert(s[q] == tail[0]);
        assert(skip_space(s, q) == q);
    } else {
        let m = members[k];
        let key = encoded(m.key);
        let t = text_of(m.value, r);
        let sep: Seq<char> = if k + 1 < n {
            seq![',']
        } else {
            Seq::empty()
        };
        let more = joined_members(members, k + 1, n, r) + seq!['}'];
        lemma_text_starts(m.value, r);
        assert(tail =~= key + (seq![':'] + (t + (sep + more))));
        lemma_stands_split(s, q, key, seq![':'] + (t + (sep + more)));
        let colon = q + key.len();
        lemma_stands_split(s, colon, seq![':'], t + (sep + more));
        let start = colon + 1;
        lemma_stands_split(s, start, t, sep + more);
        let end = start + t.len();
        lemma_stands_split(s, end, sep, more);
        lemma_stands_chars(s, q, key);
        lemma_stands_chars(s, colon, seq![':']);
        lemma_stands_chars(s, start, t);
        lemma_stands_chars(s, end, sep + more);
        assert(s[q] == key[0]);
        assert(key[0] == '"');
        assert(skip_space(s, q) == q);
        lemma_string_reads_back(s, q, m.key);
        assert(spec_key(s, q) == Some((m.key, colon)));
        assert(s[colon] == seq![':'][0]);
        assert(skip_space(s, colon) == colon);
        assert(s[end] == (sep + more)[0]);
        if k + 1 < n {
            assert((sep + more)[0] == ',');
        } else {
            assert(joined_members(members, k + 1, n, r) =~= Seq::<char>::empty());
            assert((sep + more)[0] == '}');
        }
        lemma_value_reads_back(s, start, m.value, r);
        assert(skip_space(s, end) == end);
        let read = Member { key: m.key, value: deferred(m.value, r) };
        assert forall|i: int| 0 <= i < done.len() implies seq_order(
            #[trigger] done[i].key,
            read.key,
        ) == Order::Less by {
            assert(done[i].key == members[i].key);
        }
        lemma_upsert_appends(done, read);
        assert(done.push(read) =~= deferred_members(members, k + 1, r));
        let next = end + sep.len();
        lemma_members_read_back(s, next, members, k + 1, r);
        assert(q + joined_members(members, k, n, r).len() + 1 == next + joined_members(
            members,
            k + 1,
            n,
            r,
        ).len() + 1) by {
            assert(joined_members(members, k, n, r) == key + seq![':'] + t + sep + joined_members(
                members,
                k + 1,
                n,
                r,
            ));
        }
    }
}

/// The value as it is after the parser has left it and the float literals
/// in it have been read: every number still a literal, every float literal
/// with its reading.
pub open spec fn filled(v: Value, r: Renderer) -> Value
    decreases v,
{
    match v {
        Value::Float(FloatingView::Data(b)) => Value::Float(
            FloatingView::Text(r(b), Reading::Bits(b)),
        ),
        Value::Array(items) => Value::Array(
            Seq::new(
                items.len(),
                |i: int|
                    if 0 <= i < items.len() {
                        filled(items[i], r)
                    } else {
                        Value::Null
                    },
            ),
        ),
        Value::Object(members) => Value::Object(
            Seq::new(
                members.len(),
                |i: int|
                    if 0 <= i < members.len() {
                        Member { key: members[i].key, value: filled(members[i].value, r) }
                    } else {
                        Member { key: Seq::empty(), value: Value::Null }
                    },
            ),
        ),
        _ => deferred(v, r),
    }
}

/// Handing the floats of a printable value, as readings, to the value as
/// the parser leaves it gives every float literal its reading and uses
/// exactly those readings.
pub proof fn lemma_deferred_fills(v: Value, rest: Seq<Reading>, r: Renderer)
    requires
        printable(v, r),
    ensures
        fill(deferred(v, r), readings_of(float_bits_of(v)) + rest) == (filled(v, r), rest),
    decreases v, 0int,
{
    lemma_printable_parts(v, r);
    let rs = readings_of(float_bits_of(v)) + rest;
    match v {
        Value::Float(FloatingView::Data(b)) => {
            assert(rs[0] == Reading::Bits(b));
            assert(rs.drop_first() =~= rest);
        },
        Value::Array(items) => {
            let d = deferred(v, r)->Array_0;
            lemma_deferred_items_fill(items, d, items.len() as int, rest, r);
            assert(fill_items(d, d.len() as int, rs).0 =~= filled(v, r)->Array_0);
        },
        Value::Object(members) => {
            let d = deferred(v, r)->Object_0;
            lemma_deferred_members_fill(members, d, members.len() as int, rest, r);
            assert(fill_members(d, d.len() as int, rs).0 =~= filled(v, r)->Object_0);
        },
        _ => {
            assert(rs =~= rest);
        },
    }
}

/// As [`lemma_deferred_fills`], for the first `k` items of an array.
pub proof fn lemma_deferred_items_fill(
    items: Seq<Value>,
    d: Seq<Value>,
    k: int,
    rest: Seq<Reading>,
    r: Renderer,
)
    requires
        0 <= k <= items.len(),
        d.len() == items.len(),
        forall|i: int| 0 <= i < items.len() ==> printable(#[trigger] items[i], r),
        forall|i: int| 0 <= i < items.len() ==> #[trigger] d[i] == deferred(items[i], r),
    ensures
        ({
            let out = fill_items(d, k, readings_of(float_bits_of_items(items, k)) + rest);
            &&& out.1 == rest
            &&& out.0.len() == d.len()
            &&& forall|i: int| 0 <= i < k ==> #[trigger] out.0[i] == filled(items[i], r)
            &&& forall|i: int| k <= i < d.len() ==> #[trigger] out.0[i] == d[i]
        }),
    decreases items, k,
{
    let rs = readings_of(float_bits_of_items(items, k)) + rest;
    if k > 0 {
        let last = readings_of(float_bits_of(items[k - 1]));
        let before = readings_of(float_bits_of_items(items, k - 1));
        assert(rs =~= before + (last + rest));
        lemma_deferred_items_fill(items, d, k - 1, last + rest, r);
        lemma_deferred_fills(items[k - 1], rest, r);
        assert(d[k - 1] == deferred(items[k - 1], r));
    } else {
        assert(rs =~= rest);
    }
}

/// As [`lemma_deferred_fills`], for the first `k` members of an object.
pub proof fn lemma_deferred_members_fill(
    members: Seq<Member>,
    d: Seq<Member>,
    k: int,
    rest: Seq<Reading>,
    r: Renderer,
)
    requires
        0 <= k <= members.len(),
        d.len() == members.len(),
        forall|i: int| 0 <= i < members.len() ==> printable((#[trigger] members[i]).value, r),
        forall|i: int|
            0 <= i < members.len() ==> #[trigger] d[i] == (Member {
                key: members[i].key,
                value: deferred(members[i].value, r),
            }),
    ensures
        ({
            let out = fill_members(d, k, readings_of(float_bits_of_members(members, k)) + rest);
            &&& out.1 == rest
            &&& out.0.len() == d.len()
            &&& forall|i: int|
                0 <= i < k ==> #[trigger] out.0[i] == (Member {
                    key: members[i].key,
                    value: filled(members[i].value, r),
                })
            &&& forall|i: int| k <= i < d.len() ==> #[trigger] out.0[i] == d[i]
        }),
    decreases members, k,
{
    let rs = readings_of(float_bits_of_members(members, k)) + rest;
    if k > 0 {
        let last = readings_of(float_bits_of(members[k - 1].value));
        let before = readings_of(float_bits_of_members(members, k - 1));
        assert(rs =~= before + (last + rest));
        lemma_deferred_members_fill(members, d, k - 1, last + rest, r);
        lemma_deferred_fills(members[k - 1].value, rest, r);
        assert(d[k - 1] == (Member {
            key: members[k - 1].key,
            value: deferred(members[k - 1].value, r),
        }));
    } else {
        assert(rs =~= rest);
    }
}

/// Computing the numbers of a printable value as it is after parsing and
/// reading gives the value.
pub proof fn lemma_filled_computes(v: Value, r: Renderer)
    requires
        printable(v, r),
    ensures
        walk(filled(v, r)) == (v, true),
    decreases v, 0int,
{
    lemma_printable_parts(v, r);
    match v {
        Value::Integer(IntegralView::Data(n)) => {
            lemma_signed_decimal_reads_back(n);
        },
        Value::Array(items) => {
            let d = filled(v, r)->Array_0;
            lemma_filled_items_compute(items, d, items.len() as int, r);
            assert(walk_items(d, d.len() as int).0 =~= items);
        },
        Value::Object(members) => {
            let d = filled(v, r)->Object_0;
            lemma_filled_members_compute(members, d, members.len() as int, r);
            assert(walk_members(d, d.len() as int).0 =~= members);
        },
        _ => {},
    }
}

/// As [`lemma_filled_computes`], for the first `k` items of an array.
pub proof fn lemma_filled_items_compute(items: Seq<Value>, d: Seq<Value>, k: int, r: Renderer)
    requires
        0 <= k <= items.len(),
        d.len() == items.len(),
        forall|i: int| 0 <= i < items.len() ==> printable(#[trigger] items[i], r),
        forall|i: int| 0 <= i < items.len() ==> #[trigger] d[i] == filled(items[i], r),
    ensures
        walk_items(d, k).1,
        walk_items(d, k).0.len() == d.len(),
        forall|i: int| 0 <= i < k ==> #[trigger] walk_items(d, k).0[i] == items[i],
        forall|i: int| k <= i < d.len() ==> #[trigger] walk_items(d, k).0[i] == d[i],
    decreases items, k,
{
    if k > 0 {
        lemma_filled_items_compute(items, d, k - 1, r);
        lemma_filled_computes(items[k - 1], r);
        assert(d[k - 1] == filled(items[k - 1], r));
    }
}

/// As [`lemma_filled_computes`], for the first `k` members of an object.
pub proof fn lemma_filled_members_compute(members: Seq<Member>, d: Seq<Member>, k: int, r: Renderer)
    requires
        0 <= k <= members.len(),
        d.len() == members.len(),
        forall|i: int| 0 <= i < members.len() ==> printable((#[trigger] members[i]).value, r),
        forall|i: int|
            0 <= i < members.len() ==> #[trigger] d[i] == (Member {
                key: members[i].key,
                value: filled(members[i].value, r),
            }),
    ensures
        walk_members(d, k).1,
        walk_members(d, k).0.len() == d.len(),
        forall|i: int| 0 <= i < k ==> #[trigger] walk_members(d, k).0[i] == members[i],
        forall|i: int| k <= i < d.len() ==> #[trigger] walk_members(d, k).0[i] == d[i],
    decreases members, k,
{
    if k > 0 {
        lemma_filled_members_compute(members, d, k - 1, r);
        lemma_filled_computes(members[k - 1].value, r);
        assert(d[k - 1] == (Member {
            key: members[k - 1].key,
            value: filled(members[k - 1].value, r),
        }));
    }
}

/// The text of a value parses back to the value. For every printable value,
/// however its floats are printed, as long as each is printed as a float
/// literal: the text that the library writes for the value, given those
/// renderings, is its compact text; that text parses, to the value with its
/// numbers deferred; and once each float literal has been read as the float
/// that it was printed for, computing the numbers gives the value again.
pub proof fn text_parses_back(v: Value, r: Renderer)
    requires
        printable(v, r),
    ensures
        value_text(v, renderings_of(float_bits_of(v), r)) == Some(
            (text_of(v, r), Seq::<Seq<char>>::empty()),
        ),
        spec_parse(text_of(v, r)) == Ok::<Value, ErrorKind>(deferred(v, r)),
        fill(deferred(v, r), readings_of(float_bits_of(v))) == (
            filled(v, r),
            Seq::<Reading>::empty(),
        ),
        walk(filled(v, r)) == (v, true),
{
    let t = text_of(v, r);
    lemma_text_is_written(v, Seq::empty(), r);
    assert(renderings_of(float_bits_of(v), r) + Seq::<Seq<char>>::empty() =~= renderings_of(
        float_bits_of(v),
        r,
    ));
    assert(t.subrange(0, t.len() as int) =~= t);
    lemma_value_reads_back(t, 0, v, r);
    lemma_deferred_fills(v, Seq::empty(), r);
    assert(readings_of(float_bits_of(v)) + Seq::<Reading>::empty() =~= readings_of(
        float_bits_of(v),
    ));
    lemma_filled_computes(v, r);
}

/// Every computed float in the value is printed as a float literal.
pub open spec fn floats_print(v: Value, r: Renderer) -> bool
    decreases v,
{
    match v {
        Value::Float(FloatingView::Data(b)) => float_token(r(b)),
        Value::Array(items) => forall|i: int|
            0 <= i < items.len() ==> floats_print(#[trigger] items[i], r),
        Value::Object(members) => forall|i: int|
            0 <= i < members.len() ==> floats_print((#[trigger] members[i]).value, r),
        _ => true,
    }
}

/// What a text can denote, with the members of every object sorted, every
/// number computed and every float printed as a float literal, is
/// printable.
pub proof fn lemma_plain_is_printable(v: Value, r: Renderer)
    requires
        v.plain(),
        v.wf(),
        v.computed(),
        floats_print(v, r),
    ensures
        printable(v, r),
    decreases v,
{
    match v {
        Value::Array(items) => {
            assert forall|i: int| 0 <= i < items.len() implies printable(#[trigger] items[i], r) by {
                lemma_plain_is_printable(items[i], r);
            }
        },
        Value::Object(members) => {
            assert forall|i: int| 0 <= i < members.len() implies printable(
                (#[trigger] members[i]).value,
                r,
            ) by {
                lemma_plain_is_printable(members[i].value, r);
            }
        },
        _ => {},
    }
}

/// The walk that computes the numbers of a value keeps what the value is
/// made of and the order of the members of its objects, and where it
/// succeeds every number is computed.
pub proof fn lemma_walk_keeps_shape(v: Value)
    requires
        v.plain(),
        v.wf(),
    ensures
        walk(v).0.plain(),
        walk(v).0.wf(),
        walk(v).1 ==> walk(v).0.computed(),
    decreases v, 0int,
{
    match v {
        Value::Array(items) => {
            lemma_walk_items_keep_shape(items, items.len() as int);
            let out = walk_items(items, items.len() as int).0;
            assert(walk(v).0->Array_0 == out);
        },
        Value::Object(members) => {
            lemma_walk_members_keep_shape(members, members.len() as int);
            let out = walk_members(members, members.len() as int).0;
            assert(walk(v).0->Object_0 == out);
            assert forall|p: int, q: int| 0 <= p < q < out.len() implies seq_order(
                #[trigger] out[p].key,
                #[trigger] out[q].key,
            ) == Order::Less by {
                assert(out[p].key == members[p].key);
                assert(out[q].key == members[q].key);
            }
        },
        _ => {},
    }
}

/// As [`lemma_walk_keeps_shape`], for the first `k` items of an array.
pub proof fn lemma_walk_items_keep_shape(items: Seq<Value>, k: int)
    requires
        0 <= k <= items.len(),
        forall|i: int| 0 <= i < items.len() ==> (#[trigger] items[i]).plain(),
        forall|i: int| 0 <= i < items.len() ==> (#[trigger] items[i]).wf(),
    ensures
        walk_items(items, k).0.len() == items.len(),
        forall|i: int| 0 <= i < items.len() ==> (#[trigger] walk_items(items, k).0[i]).plain(),
        forall|i: int| 0 <= i < items.len() ==> (#[trigger] walk_items(items, k).0[i]).wf(),
        walk_items(items, k).1 ==> forall|i: int|
            0 <= i < k ==> (#[trigger] walk_items(items, k).0[i]).computed(),
        forall|i: int| k <= i < items.len() ==> #[trigger] walk_items(items, k).0[i] == items[i],
    decreases items, k,
{
    if k > 0 {
        lemma_walk_items_keep_shape(items, k - 1);
        lemma_walk_keeps_shape(items[k - 1]);
    }
}

/// As [`lemma_walk_keeps_shape`], for the first `k` members of an object.
pub proof fn lemma_walk_members_keep_shape(members: Seq<Member>, k: int)
    requires
        0 <= k <= members.len(),
        forall|i: int| 0 <= i < members.len() ==> (#[trigger] members[i]).value.plain(),
        forall|i: int| 0 <= i < members.len() ==> (#[trigger] members[i]).value.wf(),
    ensures
        walk_members(members, k).0.len() == members.len(),
        forall|i: int|
            0 <= i < members.len() ==> (#[trigger] walk_members(members, k).0[i]).value.plain(),
        forall|i: int|
            0 <= i < members.len() ==> (#[trigger] walk_members(members, k).0[i]).value.wf(),
        forall|i: int|
            0 <= i < members.len() ==> (#[trigger] walk_members(members, k).0[i]).key
                == members[i].key,
        walk_members(members, k).1 ==> forall|i: int|
            0 <= i < k ==> (#[trigger] walk_members(members, k).0[i]).value.computed(),
        forall|i: int|
            k <= i < members.len() ==> #[trigger] walk_members(members, k).0[i] == members[i],
    decreases members, k,
{
    if k > 0 {
        lemma_walk_members_keep_shape(members, k - 1);
        lemma_walk_keeps_shape(members[k - 1].value);
    }
}

/// What was parsed, once its numbers are computed, is printable: a value
/// that is made of what a text can denote, with the members of its objects
/// sorted, such as every parse gives, whose numbers all have a value and
/// whose floats are all printed as float literals.
pub proof fn computed_value_is_printable(v: Value, r: Renderer)
    requires
        v.plain(),
        v.wf(),
        walk(v).1,
        floats_print(walk(v).0, r),
    ensures
        printable(walk(v).0, r),
{
    lemma_walk_keeps_shape(v);
    lemma_plain_is_printable(walk(v).0, r);
}

/// Giving readings to the float literals of a value keeps what the value
/// is made of and the order of the members of its objects.
pub proof fn lemma_fill_keeps_shape(v: Value, rs: Seq<Reading>)
    requires
        v.plain(),
        v.wf(),
    ensures
        fill(v, rs).0.plain(),
        fill(v, rs).0.wf(),
    decreases v, 0int,
{
    match v {
        Value::Array(items) => {
            lemma_fill_items_keep_shape(items, items.len() as int, rs);
            let out = fill_items(items, items.len() as int, rs).0;
            assert(fill(v, rs).0->Array_0 == out);
        },
        Value::Object(members) => {
            lemma_fill_members_keep_shape(members, members.len() as int, rs);
            let out = fill_members(members, members.len() as int, rs).0;
            assert(fill(v, rs).0->Object_0 == out);
            assert forall|p: int, q: int| 0 <= p < q < out.len() implies seq_order(
                #[trigger] out[p].key,
                #[trigger] out[q].key,
            ) == Order::Less by {
                assert(out[p].key == members[p].key);
                assert(out[q].key == members[q].key);
            }
        },
        _ => {},
    }
}

/// As [`lemma_fill_keeps_shape`], for the first `k` items of an array.
pub proof fn lemma_fill_items_keep_shape(items: Seq<Value>, k: int, rs: Seq<Reading>)
    requires
        0 <= k <= items.len(),
        forall|i: int| 0 <= i < items.len() ==> (#[trigger] items[i]).plain(),
        forall|i: int| 0 <= i < items.len() ==> (#[trigger] items[i]).wf(),
    ensures
        fill_items(items, k, rs).0.len() == items.len(),
        forall|i: int| 0 <= i < items.len() ==> (#[trigger] fill_items(items, k, rs).0[i]).plain(),
        forall|i: int| 0 <= i < items.len() ==> (#[trigger] fill_items(items, k, rs).0[i]).wf(),
    decreases items, k,
{
    if k > 0 {
        lemma_fill_items_keep_shape(items, k - 1, rs);
        lemma_fill_keeps_shape(items[k - 1], fill_items(items, k - 1, rs).1);
    }
}

/// As [`lemma_fill_keeps_shape`], for the first `k` members of an object.
pub proof fn lemma_fill_members_keep_shape(members: Seq<Member>, k: int, rs: Seq<Reading>)
    requires
        0 <= k <= members.len(),
        forall|i: int| 0 <= i < members.len() ==> (#[trigger] members[i]).value.plain(),
        forall|i: int| 0 <= i < members.len() ==> (#[trigger] members[i]).value.wf(),
    ensures
        fill_members(members, k, rs).0.len() == members.len(),
        forall|i: int|
            0 <= i < members.len() ==> (#[trigger] fill_members(members, k, rs).0[i]).value.plain(),
        forall|i: int|
            0 <= i < members.len() ==> (#[trigger] fill_members(members, k, rs).0[i]).value.wf(),
        forall|i: int|
            0 <= i < members.len() ==> (#[trigger] fill_members(members, k, rs).0[i]).key
                == members[i].key,
    decreases members, k,
{
    if k > 0 {
        lemma_fill_members_keep_shape(members, k - 1, rs);
        lemma_fill_keeps_shape(members[k - 1].value, fill_members(members, k - 1, rs).1);
    }
}

/// The value of an outcome of the parser.
pub open spec fn value_of(o: Parsed) -> Value {
    match o {
        Ok((v, _)) => v,
        Err(_) => Value::Null,
    }
}

/// What a text parses to is made of what a text can denote, and the
/// members of its objects are sorted by key.
pub proof fn lemma_parsed_shape(s: Seq<char>, pos: int)
    ensures
        value_of(spec_value(s, pos)).plain(),
        value_of(spec_value(s, pos)).wf(),
    decreases s.len() - pos, 2int,
{
    let p = skip_space(s, pos);
    if 0 <= pos <= p < s.len() && !is_word_start(s, p) && s[p] != '"' {
        if s[p] == '[' {
            let i = skip_space(s, p + 1);
            if (p < i <= s.len()) && !(i < s.len() && s[i] == ',') {
                lemma_parsed_items_shape(s, i, Seq::empty());
            }
        } else if s[p] == '{' {
            lemma_parsed_members_shape(s, p + 1, Seq::empty());
        }
    }
}

/// As [`lemma_parsed_shape`], for the rest of an array.
pub proof fn lemma_parsed_items_shape(s: Seq<char>, pos: int, done: Seq<Value>)
    requires
        forall|i: int| 0 <= i < done.len() ==> (#[trigger] done[i]).plain(),
        forall|i: int| 0 <= i < done.len() ==> (#[trigger] done[i]).wf(),
    ensures
        value_of(spec_items(s, pos, done)).plain(),
        value_of(spec_items(s, pos, done)).wf(),
    decreases s.len() - pos, 3int,
{
    if 0 <= pos < s.len() && s[pos] != ']' {
        lemma_parsed_shape(s, pos);
        match spec_value(s, pos) {
            Ok((v, end)) => {
                let j = skip_space(s, end);
                let next = if 0 <= j < s.len() && s[j] == ',' {
                    skip_space(s, j + 1)
                } else {
                    j
                };
                if pos < next <= s.len() {
                    let more = done.push(v);
                    assert forall|i: int| 0 <= i < more.len() implies (#[trigger] more[i]).plain()
                        && more[i].wf() by {
                        if i < done.len() {
                            assert(more[i] == done[i]);
                        }
                    }
                    lemma_parsed_items_shape(s, next, more);
                }
            },
            Err(_) => {},
        }
    }
}

/// As [`lemma_parsed_shape`], for the rest of an object.
pub proof fn lemma_parsed_members_shape(s: Seq<char>, pos: int, done: Seq<Member>)
    requires
        sorted(done),
        forall|i: int| 0 <= i < done.len() ==> (#[trigger] done[i]).value.plain(),
        forall|i: int| 0 <= i < done.len() ==> (#[trigger] done[i]).value.wf(),
    ensures
        value_of(spec_members(s, pos, done)).plain(),
        value_of(spec_members(s, pos, done)).wf(),
    decreases s.len() - pos, 3int,
{
    let i = skip_space(s, pos);
    if 0 <= pos <= i < s.len() && s[i] != '}' {
        match spec_key(s, i) {
            Some((key, after_key)) => {
                let colon = skip_space(s, after_key);
                if i < after_key && after_key <= colon < s.len() && s[colon] == ':' {
                    lemma_parsed_shape(s, colon + 1);
                    match spec_value(s, colon + 1) {
                        Ok((v, end)) => {
                            let j = skip_space(s, end);
                            if 0 <= j < s.len() {
                                let next = if s[j] == ',' {
                                    j + 1
                                } else {
                                    j
                                };
                                if next > pos {
                                    let m = Member { key, value: v };
                                    let more = upsert(done, m);
                                    crate::property::lemma_upsert_sorted(done, m);
                                    crate::property::lemma_upsert_members(done, m);
                                    assert forall|k: int| 0 <= k < more.len() implies (
                                    #[trigger] more[k]).value.plain() && more[k].value.wf() by {
                                        if more[k] != m {
                                            let w = choose|w: int|
                                                0 <= w < done.len() && done[w] == more[k];
                                            assert(done[w].value.plain());
                                        }
                                    }
                                    lemma_parsed_members_shape(s, next, more);
                                }
                            }
                        },
                        Err(_) => {},
                    }
                }
            },
            None => {},
        }
    }
}

/// A text that parses, parses again after it has been written out. The
/// value that a text parses to, its float literals read and its numbers
/// computed, is written as a text that parses to the same value, once the
/// float literals in that text have been read and its numbers computed in
/// turn. The floats must be printed as float literals, and every number of
/// the value must have a value.
pub proof fn parsed_text_parses_back(s: Seq<char>, readings: Seq<Reading>, r: Renderer)
    requires
        spec_parse(s) is Ok,
        walk(fill(spec_parse(s)->Ok_0, readings).0).1,
        floats_print(walk(fill(spec_parse(s)->Ok_0, readings).0).0, r),
    ensures
        ({
            let v = walk(fill(spec_parse(s)->Ok_0, readings).0).0;
            let text = text_of(v, r);
            &&& value_text(v, renderings_of(float_bits_of(v), r)) == Some(
                (text, Seq::<Seq<char>>::empty()),
            )
            &&& spec_parse(text) is Ok
            &&& walk(fill(spec_parse(text)->Ok_0, readings_of(float_bits_of(v))).0) == (v, true)
        }),
{
    let parsed = spec_parse(s)->Ok_0;
    lemma_parsed_shape(s, 0);
    lemma_fill_keeps_shape(parsed, readings);
    let read = fill(parsed, readings).0;
    computed_value_is_printable(read, r);
    text_parses_back(walk(read).0, r);
}

} // verus!
