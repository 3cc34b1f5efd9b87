//! Characters and strings: the few primitives every other module builds on.

use crate::order::Order;
use vstd::prelude::*;
use vstd::std_specs::iter::IteratorSpec;

verus! {

/// `String::push`: the string grows by exactly the character given.
#[verifier::external_body]
pub(crate) fn push_char(s: &mut String, c: char)
    ensures
        final(s)@ == old(s)@.push(c),
{
    s.push(c)
}

/// The characters of a string, in order.
pub fn chars_of(s: &str) -> (r: Vec<char>)
    ensures
        r@ == s@,
{
    broadcast use vstd::string::group_string_axioms;

    let mut out: Vec<char> = Vec::new();
    let mut it = s.chars();
    let mut more = true;
    while more
        invariant
            it.obeys_prophetic_iter_laws(),
            out@ + it.remaining() == s@,
            it.decrease() is Some,
            !more ==> it.remaining().len() == 0,
        decreases
            if more {
                1 + it.decrease()->0
            } else {
                0
            },
    {
        match it.next() {
            Some(c) => {
                out.push(c);
            },
            None => {
                more = false;
            },
        }
    }
    assert(out@ =~= s@);
    out
}

/// A string holding the characters `text[from..to]`.
pub(crate) fn string_of(text: &Vec<char>, from: usize, to: usize) -> (r: String)
    requires
        from <= to <= text.len(),
    ensures
        r@ == text@.subrange(from as int, to as int),
{
    let mut out = String::new();
    let mut i: usize = from;
    while i < to
        invariant
            from <= i <= to <= text.len(),
            out@ == text@.subrange(from as int, i as int),
        decreases to - i,
    {
        push_char(&mut out, text[i]);
        i = i + 1;
        assert(out@ =~= text@.subrange(from as int, i as int));
    }
    out
}

/// Appends every character of `piece` to `out`.
pub(crate) fn push_str(out: &mut String, piece: &str)
    ensures
        final(out)@ == old(out)@ + piece@,
{
    broadcast use vstd::string::group_string_axioms;

    let mut it = piece.chars();
    let mut more = true;
    let ghost mut done: Seq<char> = Seq::empty();
    while more
        invariant
            it.obeys_prophetic_iter_laws(),
            done + it.remaining() == piece@,
            out@ == old(out)@ + done,
            it.decrease() is Some,
            !more ==> it.remaining().len() == 0,
        decreases
            if more {
                1 + it.decrease()->0
            } else {
                0
            },
    {
        let ghost rest = it.remaining();
        match it.next() {
            Some(c) => {
                push_char(out, c);
                proof {
                    assert(done.push(c) + rest.drop_first() =~= done + rest);
                    assert(old(out)@ + done.push(c) =~= (old(out)@ + done).push(c));
                    done = done.push(c);
                }
            },
            None => {
                more = false;
            },
        }
    }
    assert(done =~= piece@);
}

/// Lexicographic order of two character sequences by code point, the shorter
/// one first when it is a prefix of the other.
pub open spec fn seq_order(a: Seq<char>, b: Seq<char>) -> Order
    decreases a.len(),
{
    if a.len() == 0 {
        if b.len() == 0 {
            Order::Equal
        } else {
            Order::Less
        }
    } else if b.len() == 0 {
        Order::Greater
    } else if (a[0] as u32) < (b[0] as u32) {
        Order::Less
    } else if (a[0] as u32) > (b[0] as u32) {
        Order::Greater
    } else {
        seq_order(a.drop_first(), b.drop_first())
    }
}

/// Compares two strings character by character.
pub fn str_order(a: &str, b: &str) -> (r: Order)
    ensures
        r == seq_order(a@, b@),
{
    broadcast use vstd::string::group_string_axioms;

    let mut ia = a.chars();
    let mut ib = b.chars();
    let mut found: Option<Order> = None;
    while found.is_none()
        invariant
            ia.obeys_prophetic_iter_laws(),
            ib.obeys_prophetic_iter_laws(),
            ia.decrease() is Some,
            ib.decrease() is Some,
            found is None ==> seq_order(a@, b@) == seq_order(ia.remaining(), ib.remaining()),
            found is Some ==> found->0 == seq_order(a@, b@),
        decreases
            if found is None {
                1 + ia.decrease()->0
            } else {
                0
            },
    {
        let ca = ia.next();
        let cb = ib.next();
        match (ca, cb) {
            (None, None) => {
                found = Some(Order::Equal);
            },
            (None, Some(_)) => {
                found = Some(Order::Less);
            },
            (Some(_), None) => {
                found = Some(Order::Greater);
            },
            (Some(x), Some(y)) => {
                if (x as u32) < (y as u32) {
                    found = Some(Order::Less);
                } else if (x as u32) > (y as u32) {
                    found = Some(Order::Greater);
                }
            },
        }
    }
    found.unwrap()
}

/// Number of bytes that the UTF-8 encoding of `c` takes.
pub open spec fn utf8_width(c: char) -> nat {
    if (c as u32) < 0x80 {
        1
    } else if (c as u32) < 0x800 {
        2
    } else if (c as u32) < 0x10000 {
        3
    } else {
        4
    }
}

/// Number of bytes that the UTF-8 encoding of `s` takes.
pub open spec fn byte_len(s: Seq<char>) -> nat
    decreases s.len(),
{
    if s.len() == 0 {
        0
    } else {
        byte_len(s.drop_last()) + utf8_width(s.last())
    }
}

/// Width of one character in UTF-8.
pub(crate) fn char_width(c: char) -> (r: usize)
    ensures
        r == utf8_width(c),
{
    let v: u32 = c as u32;
    if v < 0x80 {
        1
    } else if v < 0x800 {
        2
    } else if v < 0x10000 {
        3
    } else {
        4
    }
}

/// Characters with the Unicode `White_Space` property.
pub open spec fn is_space(c: char) -> bool {
    let v = c as u32;
    ||| 0x09 <= v <= 0x0D
    ||| v == 0x20
    ||| v == 0x85
    ||| v == 0xA0
    ||| v == 0x1680
    ||| 0x2000 <= v <= 0x200A
    ||| v == 0x2028
    ||| v == 0x2029
    ||| v == 0x202F
    ||| v == 0x205F
    ||| v == 0x3000
}

/// Tells whether `c` is white space.
pub(crate) fn char_is_space(c: char) -> (r: bool)
    ensures
        r == is_space(c),
{
    let v: u32 = c as u32;
    (0x09 <= v && v <= 0x0D) || v == 0x20 || v == 0x85 || v == 0xA0 || v == 0x1680 || (0x2000 <= v
        && v <= 0x200A) || v == 0x2028 || v == 0x2029 || v == 0x202F || v == 0x205F || v == 0x3000
}

/// The decimal digit for a value below ten.
pub open spec fn digit_char(d: nat) -> char
    recommends
        d < 10,
{
    ((48 + d) as u8) as char
}

/// Decimal numeral of a natural number, without leading zeros.
pub open spec fn decimal(n: nat) -> Seq<char>
    decreases n,
{
    if n < 10 {
        seq![digit_char(n)]
    } else {
        decimal(n / 10).push(digit_char(n % 10))
    }
}

/// Decimal numeral of an integer: a minus sign for negatives, then the digits.
pub open spec fn signed_decimal(n: int) -> Seq<char> {
    if n < 0 {
        seq!['-'] + decimal((-n) as nat)
    } else {
        decimal(n as nat)
    }
}

/// Appends the decimal numeral of `n` to `out`.
pub fn push_decimal(out: &mut String, n: u128)
    ensures
        final(out)@ == old(out)@ + decimal(n as nat),
    decreases n,
{
    if n < 10 {
        let d: u8 = (n as u8) + 48;
        push_char(out, d as char);
        assert(final(out)@ =~= old(out)@ + decimal(n as nat));
    } else {
        push_decimal(out, n / 10);
        let d: u8 = ((n % 10) as u8) + 48;
        push_char(out, d as char);
        assert(final(out)@ =~= old(out)@ + decimal(n as nat));
    }
}

/// Appends the decimal numeral of a signed integer to `out`.
pub fn push_signed_decimal(out: &mut String, n: i128)
    ensures
        final(out)@ == old(out)@ + signed_decimal(n as int),
{
    if n < 0 {
        push_char(out, '-');
        let m: u128 = if n == i128::MIN {
            0x8000_0000_0000_0000_0000_0000_0000_0000u128
        } else {
            (-n) as u128
        };
        push_decimal(out, m);
        assert(final(out)@ =~= old(out)@ + signed_decimal(n as int));
    } else {
        push_decimal(out, n as u128);
    }
}

/// A fresh vector with the same characters.
pub(crate) fn copy_chars(text: &Vec<char>) -> (r: Vec<char>)
    ensures
        r@ == text@,
{
    let mut out: Vec<char> = Vec::new();
    let mut i: usize = 0;
    while i < text.len()
        invariant
            i <= text.len(),
            out@ == text@.take(i as int),
        decreases text.len() - i,
    {
        out.push(text[i]);
        i = i + 1;
        assert(out@ =~= text@.take(i as int));
    }
    assert(out@ =~= text@);
    out
}

/// Appends the characters of `text` to `out`.
pub(crate) fn push_chars(out: &mut String, text: &Vec<char>)
    ensures
        final(out)@ == old(out)@ + text@,
{
    let mut i: usize = 0;
    while i < text.len()
        invariant
            i <= text.len(),
            out@ == old(out)@ + text@.take(i as int),
        decreases text.len() - i,
    {
        push_char(out, text[i]);
        i = i + 1;
        assert(out@ =~= old(out)@ + text@.take(i as int));
    }
    assert(text@.take(i as int) =~= text@);
}

/// A prefix takes no more bytes than the whole.
pub proof fn lemma_byte_len_prefix(s: Seq<char>, k: int)
    requires
        0 <= k <= s.len(),
    ensures
        byte_len(s.take(k)) <= byte_len(s),
    decreases s.len() - k,
{
    if k == s.len() {
        assert(s.take(k) =~= s);
    } else {
        lemma_byte_len_prefix(s.drop_last(), k);
        assert(s.drop_last().take(k) =~= s.take(k));
    }
}

/// Tells whether the UTF-8 encoding of `text` is shorter than `limit` bytes.
pub(crate) fn shorter_than(text: &Vec<char>, limit: usize) -> (r: bool)
    requires
        limit <= usize::MAX - 4,
    ensures
        r == (byte_len(text@) < limit),
{
    if limit == 0 {
        return false;
    }
    let mut total: usize = 0;
    let mut i: usize = 0;
    while i < text.len()
        invariant
            i <= text.len(),
            total == byte_len(text@.take(i as int)),
            total < limit,
            limit <= usize::MAX - 4,
        decreases text.len() - i,
    {
        proof {
            assert(text@.take(i + 1).drop_last() =~= text@.take(i as int));
            lemma_byte_len_prefix(text@, i + 1);
        }
        total = total + char_width(text[i]);
        i = i + 1;
        if total >= limit {
            return false;
        }
    }
    assert(text@.take(i as int) =~= text@);
    true
}

/// Characters with the same code point are the same character.
pub proof fn lemma_same_code(x: char, y: char)
    requires
        x as u32 == y as u32,
    ensures
        x == y,
{
    assert((x as u32) as char == x);
    assert((y as u32) as char == y);
}

/// Two sequences compare equal exactly when they are the same sequence.
pub proof fn lemma_seq_order_equal(a: Seq<char>, b: Seq<char>)
    ensures
        seq_order(a, b) == Order::Equal <==> a == b,
    decreases a.len(),
{
    if a.len() == 0 || b.len() == 0 {
        if a.len() == 0 && b.len() == 0 {
            assert(a =~= b);
        }
    } else {
        lemma_seq_order_equal(a.drop_first(), b.drop_first());
        if seq_order(a, b) == Order::Equal {
            lemma_same_code(a[0], b[0]);
            assert(a =~= seq![a[0]] + a.drop_first());
            assert(b =~= seq![b[0]] + b.drop_first());
        }
    }
}

/// Exchanging the operands exchanges `Less` and `Greater`.
pub proof fn lemma_seq_order_flip(a: Seq<char>, b: Seq<char>)
    ensures
        seq_order(b, a) == seq_order(a, b).flip(),
    decreases a.len(),
{
    if a.len() > 0 && b.len() > 0 {
        lemma_seq_order_flip(a.drop_first(), b.drop_first());
    }
}

/// The order of sequences is transitive.
pub proof fn lemma_seq_order_trans(a: Seq<char>, b: Seq<char>, c: Seq<char>)
    requires
        seq_order(a, b) == Order::Less,
        seq_order(b, c) == Order::Less,
    ensures
        seq_order(a, c) == Order::Less,
    decreases a.len(),
{
    if a.len() > 0 && b.len() > 0 && c.len() > 0 {
        if a[0] as u32 == b[0] as u32 && b[0] as u32 == c[0] as u32 {
            lemma_seq_order_trans(a.drop_first(), b.drop_first(), c.drop_first());
        }
    }
}

} // verus!
