//! Rendering a value as compact JSON text.
//!
//! A computed float is not printed here: the embedding program lists the
//! computed floats of a value, prints each, and hands the renderings in.

use crate::error::Error;
use crate::json::{
    items_view,
    lemma_array_view,
    lemma_object_view,
    members_view,
    texts_view,
    Json,
    Member,
    Value,
};
use crate::num::{integer_of, parse_integer, Floating, FloatingView, Integral, IntegralView};
use crate::text::{push_char, push_chars, push_signed_decimal, push_str, signed_decimal};
use vstd::prelude::*;
use vstd::std_specs::iter::IteratorSpec;

verus! {

/// The lower-case hexadecimal digit for a value below sixteen.
pub open spec fn hex_char(d: int) -> char {
    if d < 10 {
        ((48 + d) as u8) as char
    } else {
        ((87 + d) as u8) as char
    }
}

/// How a character stands inside a string literal: the control characters,
/// the quote, the backslash and DEL are escaped, by a short escape where
/// there is one and by `\u00XX` otherwise; any other character stands for
/// itself.
pub open spec fn escaped(c: char) -> Seq<char> {
    let v = c as u32;
    if v == 0x08 {
        seq!['\\', 'b']
    } else if v == 0x09 {
        seq!['\\', 't']
    } else if v == 0x0A {
        seq!['\\', 'n']
    } else if v == 0x0C {
        seq!['\\', 'f']
    } else if v == 0x0D {
        seq!['\\', 'r']
    } else if v == 0x22 {
        seq!['\\', '"']
    } else if v == 0x5C {
        seq!['\\', '\\']
    } else if v < 0x20 || v == 0x7F {
        seq!['\\', 'u', '0', '0', hex_char(v as int / 16), hex_char(v as int % 16)]
    } else {
        seq![c]
    }
}

/// The characters of `s`, each as it stands inside a string literal.
pub open spec fn escaped_all(s: Seq<char>) -> Seq<char>
    decreases s.len(),
{
    if s.len() == 0 {
        Seq::empty()
    } else {
        escaped_all(s.drop_last()) + escaped(s.last())
    }
}

/// The string literal for `s`.
pub open spec fn encoded(s: Seq<char>) -> Seq<char> {
    seq!['"'] + escaped_all(s) + seq!['"']
}

/// Tells whether an integer literal is written in hexadecimal.
pub open spec fn is_hex_form(t: Seq<char>) -> bool {
    (t.len() > 2 && t[0] == '0' && t[1] == 'x') || (t.len() > 3 && t[0] == '-' && t[1] == '0'
        && t[2] == 'x')
}

/// The text of an integer cell: the value in decimal where the cell is
/// computed or its literal is a hexadecimal one that denotes a number, the
/// literal as it was written otherwise.
pub open spec fn integer_text(c: IntegralView) -> Seq<char> {
    match c {
        IntegralView::Data(n) => signed_decimal(n),
        IntegralView::Text(t) => if is_hex_form(t) && integer_of(t) is Some {
            signed_decimal(integer_of(t)->0)
        } else {
            t
        },
    }
}

/// The text of the items `orig[..n]`, with a comma between each two, and the
/// renderings that are left.
pub open spec fn items_text(orig: Seq<Value>, n: int, fl: Seq<Seq<char>>) -> Option<
    (Seq<char>, Seq<Seq<char>>),
>
    decreases orig, n,
{
    if n <= 0 || n > orig.len() {
        Some((Seq::empty(), fl))
    } else {
        match items_text(orig, n - 1, fl) {
            Some((before, rest)) => match value_text(orig[n - 1], rest) {
                Some((t, rest2)) => Some(
                    (
                        if n == 1 {
                            t
                        } else {
                            before + seq![','] + t
                        },
                        rest2,
                    ),
                ),
                None => None,
            },
            None => None,
        }
    }
}

/// The text of the members `orig[..n]`, each as its key's literal, a colon
/// and its value, with a comma between each two, and the renderings left.
pub open spec fn members_text(orig: Seq<Member>, n: int, fl: Seq<Seq<char>>) -> Option<
    (Seq<char>, Seq<Seq<char>>),
>
    decreases orig, n,
{
    if n <= 0 || n > orig.len() {
        Some((Seq::empty(), fl))
    } else {
        match members_text(orig, n - 1, fl) {
            Some((before, rest)) => match value_text(orig[n - 1].value, rest) {
                Some((t, rest2)) => Some(
                    (
                        if n == 1 {
                            encoded(orig[n - 1].key) + seq![':'] + t
                        } else {
                            before + seq![','] + encoded(orig[n - 1].key) + seq![':'] + t
                        },
                        rest2,
                    ),
                ),
                None => None,
            },
            None => None,
        }
    }
}

/// The compact text of a value and the renderings that are left over. The
/// renderings `fl` are those of the computed floats of the value, in the
/// order of the text; `None` where they run out. A deferred number stands as
/// it was written.
pub open spec fn value_text(v: Value, fl: Seq<Seq<char>>) -> Option<(Seq<char>, Seq<Seq<char>>)>
    decreases v, 0int,
{
    match v {
        Value::Null => Some(("null"@, fl)),
        Value::Bool(true) => Some(("true"@, fl)),
        Value::Bool(false) => Some(("false"@, fl)),
        Value::Integer(c) => Some((integer_text(c), fl)),
        Value::Float(FloatingView::Text(t, _)) => Some((t, fl)),
        Value::Float(FloatingView::Data(_)) => if fl.len() > 0 {
            Some((fl[0], fl.drop_first()))
        } else {
            None
        },
        Value::String(s) => Some((encoded(s), fl)),
        Value::Array(items) => match items_text(items, items.len() as int, fl) {
            Some((t, rest)) => Some((seq!['['] + t + seq![']'], rest)),
            None => None,
        },
        Value::Object(members) => match members_text(members, members.len() as int, fl) {
            Some((t, rest)) => Some((seq!['{'] + t + seq!['}'], rest)),
            None => None,
        },
        Value::Error(e) => Some(("error: "@ + Error::spec_text(e), fl)),
        Value::Minbound => Some(("minbound"@, fl)),
        Value::Maxbound => Some(("maxbound"@, fl)),
    }
}

/// The bits of the computed floats of the items `orig[..n]`.
pub open spec fn float_bits_of_items(orig: Seq<Value>, n: int) -> Seq<int>
    decreases orig, n,
{
    if n <= 0 || n > orig.len() {
        Seq::empty()
    } else {
        float_bits_of_items(orig, n - 1) + float_bits_of(orig[n - 1])
    }
}

/// The bits of the computed floats of the members `orig[..n]`.
pub open spec fn float_bits_of_members(orig: Seq<Member>, n: int) -> Seq<int>
    decreases orig, n,
{
    if n <= 0 || n > orig.len() {
        Seq::empty()
    } else {
        float_bits_of_members(orig, n - 1) + float_bits_of(orig[n - 1].value)
    }
}

/// The bits of the computed floats of a value, in the order of the text.
pub open spec fn float_bits_of(v: Value) -> Seq<int>
    decreases v, 0int,
{
    match v {
        Value::Float(FloatingView::Data(b)) => seq![b],
        Value::Array(items) => float_bits_of_items(items, items.len() as int),
        Value::Object(members) => float_bits_of_members(members, members.len() as int),
        _ => Seq::empty(),
    }
}

/// A vector of bit patterns as integers.
pub open spec fn bits_list_view(v: Seq<u64>) -> Seq<int> {
    Seq::new(v.len(), |i: int| v[i] as int)
}

fn hex_digit_char(d: u8) -> (r: char)
    requires
        d < 16,
    ensures
        r == hex_char(d as int),
{
    if d < 10 {
        (48 + d) as char
    } else {
        (87 + d) as char
    }
}

fn push_escaped(out: &mut String, c: char)
    ensures
        final(out)@ == old(out)@ + escaped(c),
{
    let v: u32 = c as u32;
    if v == 0x08 {
        push_char(out, '\\');
        push_char(out, 'b');
    } else if v == 0x09 {
        push_char(out, '\\');
        push_char(out, 't');
    } else if v == 0x0A {
        push_char(out, '\\');
        push_char(out, 'n');
    } else if v == 0x0C {
        push_char(out, '\\');
        push_char(out, 'f');
    } else if v == 0x0D {
        push_char(out, '\\');
        push_char(out, 'r');
    } else if v == 0x22 {
        push_char(out, '\\');
        push_char(out, '"');
    } else if v == 0x5C {
        push_char(out, '\\');
        push_char(out, '\\');
    } else if v < 0x20 || v == 0x7F {
        push_char(out, '\\');
        push_char(out, 'u');
        push_char(out, '0');
        push_char(out, '0');
        push_char(out, hex_digit_char((v / 16) as u8));
        push_char(out, hex_digit_char((v % 16) as u8));
    } else {
        push_char(out, c);
    }
    assert(out@ =~= old(out)@ + escaped(c));
}

/// Appends the string literal for `val` to `out`.
pub fn encode_string(out: &mut String, val: &str)
    ensures
        final(out)@ == old(out)@ + encoded(val@),
{
    broadcast use vstd::string::group_string_axioms;

    push_char(out, '"');
    let mut it = val.chars();
    let mut more = true;
    let ghost mut done: Seq<char> = Seq::empty();
    while more
        invariant
            it.obeys_prophetic_iter_laws(),
            done + it.remaining() == val@,
            out@ == old(out)@ + seq!['"'] + escaped_all(done),
            it.decrease() is Some,
            !more ==> it.remaining().len() == 0,
        decreases
            if more {
                1 + it.decrease()->0
            } else {
                0
            },
    {
        let ghost rest = it.remaining();
        match it.next() {
            Some(c) => {
                push_escaped(out, c);
                proof {
                    assert(done.push(c) + rest.drop_first() =~= done + rest);
                    assert(done.push(c).drop_last() =~= done);
                    done = done.push(c);
                    assert(out@ =~= old(out)@ + seq!['"'] + escaped_all(done));
                }
            },
            None => {
                more = false;
            },
        }
    }
    assert(done =~= val@);
    push_char(out, '"');
    assert(out@ =~= old(out)@ + encoded(val@));
}

fn push_integer(out: &mut String, cell: &Integral)
    ensures
        final(out)@ == old(out)@ + integer_text(cell@),
{
    match cell {
        Integral::Data { value } => {
            push_signed_decimal(out, *value);
        },
        Integral::Text { text } => {
            let n = text.len();
            let hex = (n > 2 && text[0] == '0' && text[1] == 'x') || (n > 3 && text[0] == '-'
                && text[1] == '0' && text[2] == 'x');
            if hex {
                match parse_integer(text) {
                    Some(v) => {
                        push_signed_decimal(out, v);
                    },
                    None => {
                        push_chars(out, text);
                    },
                }
            } else {
                push_chars(out, text);
            }
        },
    }
}

/// Appends the texts of the items, with a comma between each two.
#[verifier::loop_isolation(false)]
fn write_items(items: &Vec<Json>, out: &mut String, renderings: &Vec<String>, from: usize) -> (r:
    Option<usize>)
    requires
        from <= renderings.len(),
    ensures
        match items_text(
            items_view(items@),
            items.len() as int,
            texts_view(renderings@).skip(from as int),
        ) {
            Some((t, rest)) => r is Some && from <= r->0 <= renderings.len() && final(out)@ == old(
                out,
            )@ + t && texts_view(renderings@).skip(r->0 as int) == rest,
            None => r is None,
        },
    decreases items, 1int,
{
    let ghost all = texts_view(renderings@);
    let ghost fl = all.skip(from as int);
    let ghost orig = items_view(items@);
    let mut at: usize = from;
    let mut i: usize = 0;
    assert(out@ =~= old(out)@ + Seq::<char>::empty());
    while i < items.len()
        invariant
            i <= items.len(),
            from <= at <= renderings.len(),
            match items_text(orig, i as int, fl) {
                Some((t, rest)) => out@ == old(out)@ + t && all.skip(at as int) == rest,
                None => false,
            },
        decreases items.len() - i,
    {
        if i > 0 {
            push_char(out, ',');
        }
        match items[i].write_text(out, renderings, at) {
            Some(next) => {
                proof {
                    let before = (items_text(orig, i as int, fl)->0).0;
                    let t = (value_text(orig[i as int], all.skip(at as int))->0).0;
                    if i == 0 {
                        assert(before =~= Seq::empty());
                        assert(out@ =~= old(out)@ + t);
                    } else {
                        assert(out@ =~= old(out)@ + (before + seq![','] + t));
                    }
                }
                at = next;
            },
            None => {
                proof {
                    lemma_items_text_stops(orig, i + 1, items.len() as int, fl);
                }
                return None;
            },
        }
        i = i + 1;
    }
    Some(at)
}

/// Appends the texts of the members, with a comma between each two.
#[verifier::loop_isolation(false)]
fn write_members(
    props: &Vec<crate::property::Property>,
    out: &mut String,
    renderings: &Vec<String>,
    from: usize,
) -> (r: Option<usize>)
    requires
        from <= renderings.len(),
    ensures
        match members_text(
            members_view(props@),
            props.len() as int,
            texts_view(renderings@).skip(from as int),
        ) {
            Some((t, rest)) => r is Some && from <= r->0 <= renderings.len() && final(out)@ == old(
                out,
            )@ + t && texts_view(renderings@).skip(r->0 as int) == rest,
            None => r is None,
        },
    decreases props, 1int,
{
    let ghost all = texts_view(renderings@);
    let ghost fl = all.skip(from as int);
    let ghost orig = members_view(props@);
    let mut at: usize = from;
    let mut i: usize = 0;
    assert(out@ =~= old(out)@ + Seq::<char>::empty());
    while i < props.len()
        invariant
            i <= props.len(),
            from <= at <= renderings.len(),
            match members_text(orig, i as int, fl) {
                Some((t, rest)) => out@ == old(out)@ + t && all.skip(at as int) == rest,
                None => false,
            },
        decreases props.len() - i,
    {
        if i > 0 {
            push_char(out, ',');
        }
        encode_string(out, props[i].key.as_str());
        push_char(out, ':');
        match props[i].value.write_text(out, renderings, at) {
            Some(next) => {
                proof {
                    let before = (members_text(orig, i as int, fl)->0).0;
                    let t = (value_text(orig[i as int].value, all.skip(at as int))->0).0;
                    let k = encoded(orig[i as int].key);
                    if i == 0 {
                        assert(before =~= Seq::empty());
                        assert(out@ =~= old(out)@ + (k + seq![':'] + t));
                    } else {
                        assert(out@ =~= old(out)@ + (before + seq![','] + k + seq![':'] + t));
                    }
                }
                at = next;
            },
            None => {
                proof {
                    lemma_members_text_stops(orig, i + 1, props.len() as int, fl);
                }
                return None;
            },
        }
        i = i + 1;
    }
    Some(at)
}

impl Json {
    /// Appends the text of the value to `out`, taking the renderings of its
    /// computed floats from `renderings[from..]`. Returns the index of the
    /// first rendering that was not used, or `None` where the renderings ran
    /// out; `out` then holds the text up to that float.
    fn write_text(&self, out: &mut String, renderings: &Vec<String>, from: usize) -> (r: Option<
        usize,
    >)
        requires
            from <= renderings.len(),
        ensures
            match value_text(self@, texts_view(renderings@).skip(from as int)) {
                Some((t, rest)) => r is Some && from <= r->0 <= renderings.len() && final(out)@
                    == old(out)@ + t && texts_view(renderings@).skip(r->0 as int) == rest,
                None => r is None,
            },
        decreases self, 0int,
    {
        let ghost all = texts_view(renderings@);
        let ghost fl = all.skip(from as int);
        match self {
            Json::Null => {
                push_str(out, "null");
                Some(from)
            },
            Json::Bool(true) => {
                push_str(out, "true");
                Some(from)
            },
            Json::Bool(false) => {
                push_str(out, "false");
                Some(from)
            },
            Json::Integer(c) => {
                push_integer(out, c);
                Some(from)
            },
            Json::Float(Floating::Text { text, .. }) => {
                push_chars(out, text);
                Some(from)
            },
            Json::Float(Floating::Data { .. }) => {
                if from < renderings.len() {
                    push_str(out, renderings[from].as_str());
                    assert(fl.drop_first() =~= all.skip(from + 1));
                    Some(from + 1)
                } else {
                    None
                }
            },
            Json::String(s) => {
                encode_string(out, s.as_str());
                Some(from)
            },
            Json::Array(items) => {
                proof {
                    lemma_array_view(*items);
                }
                push_char(out, '[');
                match write_items(items, out, renderings, from) {
                    Some(at) => {
                        push_char(out, ']');
                        proof {
                            let t = (items_text(items_view(items@), items.len() as int, fl)->0).0;
                            assert(out@ =~= old(out)@ + (seq!['['] + t + seq![']']));
                        }
                        Some(at)
                    },
                    None => None,
                }
            },
            Json::Object(props) => {
                proof {
                    lemma_object_view(*props);
                }
                push_char(out, '{');
                match write_members(props, out, renderings, from) {
                    Some(at) => {
                        push_char(out, '}');
                        proof {
                            let ms = members_view(props@);
                            let t = (members_text(ms, props.len() as int, fl)->0).0;
                            assert(out@ =~= old(out)@ + (seq!['{'] + t + seq!['}']));
                        }
                        Some(at)
                    },
                    None => None,
                }
            },
            Json::__Error(e) => {
                push_str(out, "error: ");
                let t = e.to_text();
                push_str(out, t.as_str());
                Some(from)
            },
            Json::__Minbound => {
                push_str(out, "minbound");
                Some(from)
            },
            Json::__Maxbound => {
                push_str(out, "maxbound");
                Some(from)
            },
        }
    }

    /// The compact text of the value. `renderings` holds the text of each
    /// computed float of the value, in the order in which
    /// [`Json::computed_floats`] lists them; `None` where it holds too few.
    pub fn to_text(&self, renderings: &Vec<String>) -> (r: Option<String>)
        ensures
            match value_text(self@, texts_view(renderings@)) {
                Some((t, _)) => r is Some && r->0@ == t,
                None => r is None,
            },
    {
        let mut out = String::new();
        assert(texts_view(renderings@).skip(0) =~= texts_view(renderings@));
        match self.write_text(&mut out, renderings, 0) {
            Some(_) => {
                assert(Seq::<char>::empty() + out@ =~= out@);
                Some(out)
            },
            None => None,
        }
    }

    /// Appends the bits of the computed floats of the value to `out`, in the
    /// order of the text.
    #[verifier::loop_isolation(false)]
    fn collect_computed_floats(&self, out: &mut Vec<u64>)
        ensures
            bits_list_view(final(out)@) == bits_list_view(old(out)@) + float_bits_of(self@),
        decreases self,
    {
        let ghost start = bits_list_view(out@);
        match self {
            Json::Float(Floating::Data { bits }) => {
                out.push(*bits);
                assert(bits_list_view(out@) =~= start + float_bits_of(self@));
            },
            Json::Array(items) => {
                proof {
                    lemma_array_view(*items);
                }
                let ghost orig = items_view(items@);
                let mut i: usize = 0;
                while i < items.len()
                    invariant
                        i <= items.len(),
                        bits_list_view(out@) == start + float_bits_of_items(orig, i as int),
                    decreases items.len() - i,
                {
                    items[i].collect_computed_floats(out);
                    i = i + 1;
                    assert(bits_list_view(out@) =~= start + float_bits_of_items(orig, i as int));
                }
            },
            Json::Object(props) => {
                proof {
                    lemma_object_view(*props);
                }
                let ghost orig = members_view(props@);
                let mut i: usize = 0;
                while i < props.len()
                    invariant
                        i <= props.len(),
                        bits_list_view(out@) == start + float_bits_of_members(orig, i as int),
                    decreases props.len() - i,
                {
                    props[i].value.collect_computed_floats(out);
                    i = i + 1;
                    assert(bits_list_view(out@) =~= start + float_bits_of_members(orig, i as int));
                }
            },
            _ => {
                assert(bits_list_view(out@) =~= start + float_bits_of(self@));
            },
        }
    }

    /// The bits of the computed floats of the value, in the order of the
    /// text: what the embedding program has to print.
    pub fn computed_floats(&self) -> (r: Vec<u64>)
        ensures
            bits_list_view(r@) == float_bits_of(self@),
    {
        let mut out: Vec<u64> = Vec::new();
        self.collect_computed_floats(&mut out);
        assert(bits_list_view(out@) =~= float_bits_of(self@));
        out
    }
}

/// Once the renderings have run out, more items change nothing.
pub proof fn lemma_items_text_stops(orig: Seq<Value>, m: int, n: int, fl: Seq<Seq<char>>)
    requires
        0 <= m <= n <= orig.len(),
        items_text(orig, m, fl) is None,
    ensures
        items_text(orig, n, fl) is None,
    decreases n - m,
{
    if m < n {
        lemma_items_text_stops(orig, m, n - 1, fl);
    }
}

/// Once the renderings have run out, more members change nothing.
pub proof fn lemma_members_text_stops(orig: Seq<Member>, m: int, n: int, fl: Seq<Seq<char>>)
    requires
        0 <= m <= n <= orig.len(),
        members_text(orig, m, fl) is None,
    ensures
        members_text(orig, n, fl) is None,
    decreases n - m,
{
    if m < n {
        lemma_members_text_stops(orig, m, n - 1, fl);
    }
}

} // verus!
