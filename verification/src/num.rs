//! Deferred numeric cells.
//!
//! A number read from text keeps its literal until its value is asked for.
//! An integer literal is read here; a float literal is read by the embedding
//! program, which hands the resulting bit pattern to the cell.

use crate::error::{Error, ErrorKind};
use crate::float::{
    bits_machine_equal,
    bits_pattern_order,
    int_to_bits,
    machine_equal,
    pattern_order,
    spec_int_to_bits,
};
use crate::order::Order;
use crate::text::{byte_len, chars_of, copy_chars, push_chars, shorter_than};
use vstd::prelude::*;

verus! {

/// Longest literal, in bytes, that an integer cell keeps unread.
pub const DEFER_LIMIT: usize = 128;

/// Value of `c` as a digit in the given radix, if it is one.
pub open spec fn digit_value(c: char, radix: nat) -> Option<nat> {
    let v = c as u32;
    let d: nat = if 0x30 <= v <= 0x39 {
        (v - 0x30) as nat
    } else if 0x61 <= v <= 0x7A {
        (v - 0x61 + 10) as nat
    } else if 0x41 <= v <= 0x5A {
        (v - 0x41 + 10) as nat
    } else {
        36
    };
    if d < radix {
        Some(d)
    } else {
        None
    }
}

/// Value of a run of digits, most significant first; the empty run is zero.
pub open spec fn digits_value(s: Seq<char>, radix: nat) -> Option<nat>
    decreases s.len(),
{
    if s.len() == 0 {
        Some(0)
    } else {
        match (digits_value(s.drop_last(), radix), digit_value(s.last(), radix)) {
            (Some(v), Some(d)) => Some(v * radix + d),
            _ => None,
        }
    }
}

/// An optional sign followed by at least one digit, as a mathematical integer.
pub open spec fn signed_value(s: Seq<char>, radix: nat) -> Option<int> {
    if s.len() == 0 {
        None
    } else if s[0] == '+' || s[0] == '-' {
        if s.len() == 1 {
            None
        } else {
            match digits_value(s.skip(1), radix) {
                Some(v) => Some(
                    if s[0] == '-' {
                        -(v as int)
                    } else {
                        v as int
                    },
                ),
                None => None,
            }
        }
    } else {
        match digits_value(s, radix) {
            Some(v) => Some(v as int),
            None => None,
        }
    }
}

/// `v`, if it fits a 128-bit signed integer.
pub open spec fn fit_i128(v: Option<int>) -> Option<int> {
    match v {
        Some(n) => if i128::MIN <= n <= i128::MAX {
            Some(n)
        } else {
            None
        },
        None => None,
    }
}

/// The integer that a literal denotes: hexadecimal after `0x`, hexadecimal and
/// negated after `-0x`, decimal otherwise. `None` where the text is no such
/// literal or the value does not fit 128 bits.
pub open spec fn integer_of(text: Seq<char>) -> Option<int> {
    if text.len() > 2 && text[0] == '0' && text[1] == 'x' {
        fit_i128(signed_value(text.skip(2), 16))
    } else if text.len() > 3 && text[0] == '-' && text[1] == '0' && text[2] == 'x' {
        match fit_i128(signed_value(text.skip(3), 16)) {
            Some(n) => fit_i128(Some(-n)),
            None => None,
        }
    } else {
        fit_i128(signed_value(text, 10))
    }
}

/// A run of digits that has a value keeps one when its end is cut off, and the
/// value of the whole is no smaller than that of the part.
pub proof fn lemma_digits_prefix(s: Seq<char>, k: int, radix: nat)
    requires
        0 <= k <= s.len(),
        radix >= 1,
    ensures
        digits_value(s, radix) is Some ==> digits_value(s.take(k), radix) is Some && digits_value(
            s.take(k),
            radix,
        )->0 <= digits_value(s, radix)->0,
    decreases s.len() - k,
{
    if k == s.len() {
        assert(s.take(k) =~= s);
    } else {
        lemma_digits_prefix(s.drop_last(), k, radix);
        assert(s.drop_last().take(k) =~= s.take(k));
        if digits_value(s, radix) is Some {
            let v = digits_value(s.drop_last(), radix)->0;
            let d = digit_value(s.last(), radix)->0;
            assert(v <= v * radix + d) by (nonlinear_arith)
                requires
                    radix >= 1,
                    v >= 0,
                    d >= 0,
            ;
        }
    }
}

fn digit_of(c: char, radix: u128) -> (r: Option<u128>)
    requires
        radix <= 36,
    ensures
        r == match digit_value(c, radix as nat) {
            Some(d) => Some(d as u128),
            None => None,
        },
{
    let v: u32 = c as u32;
    let d: u32 = if 0x30 <= v && v <= 0x39 {
        v - 0x30
    } else if 0x61 <= v && v <= 0x7A {
        v - 0x61 + 10
    } else if 0x41 <= v && v <= 0x5A {
        v - 0x41 + 10
    } else {
        36
    };
    if (d as u128) < radix {
        Some(d as u128)
    } else {
        None
    }
}

/// Reads `text[from..]` as a run of digits whose value is at most `limit`.
fn read_digits(text: &Vec<char>, from: usize, radix: u128, limit: u128) -> (r: Option<u128>)
    requires
        from <= text.len(),
        2 <= radix <= 36,
    ensures
        match r {
            Some(v) => digits_value(text@.skip(from as int), radix as nat) == Some(v as nat) && v
                <= limit,
            None => match digits_value(text@.skip(from as int), radix as nat) {
                Some(v) => v > limit,
                None => true,
            },
        },
{
    let ghost run = text@.skip(from as int);
    let mut acc: u128 = 0;
    let mut i: usize = from;
    while i < text.len()
        invariant
            from <= i <= text.len(),
            2 <= radix <= 36,
            run == text@.skip(from as int),
            digits_value(run.take(i - from), radix as nat) == Some(acc as nat),
            acc <= limit,
        decreases text.len() - i,
    {
        let ghost part = run.take(i + 1 - from);
        proof {
            assert(part.drop_last() =~= run.take(i - from));
            assert(part.last() == text@[i as int]);
            lemma_digits_prefix(run, i + 1 - from, radix as nat);
        }
        match digit_of(text[i], radix) {
            None => {
                return None;
            },
            Some(d) => {
                if d > limit {
                    proof {
                        assert(acc * radix + d > limit) by (nonlinear_arith)
                            requires
                                d > limit,
                                radix >= 2,
                                acc >= 0,
                        ;
                    }
                    return None;
                }
                let room: u128 = (limit - d) / radix;
                if acc > room {
                    proof {
                        assert(acc * radix + d > limit) by (nonlinear_arith)
                            requires
                                room == (limit - d) / (radix as int),
                                acc > room,
                                d <= limit,
                                radix >= 2,
                        ;
                    }
                    return None;
                }
                proof {
                    assert(acc * radix + d <= limit) by (nonlinear_arith)
                        requires
                            room == (limit - d) / (radix as int),
                            acc <= room,
                            d <= limit,
                            radix >= 2,
                            acc >= 0,
                    ;
                }
                acc = acc * radix + d;
            },
        }
        i = i + 1;
    }
    proof {
        assert(run.take(i - from) =~= run);
    }
    Some(acc)
}

/// Reads `text[from..]` as a signed integer in the given radix.
fn read_signed(text: &Vec<char>, from: usize, radix: u128) -> (r: Option<i128>)
    requires
        from <= text.len(),
        2 <= radix <= 36,
    ensures
        fit_i128(signed_value(text@.skip(from as int), radix as nat)) == match r {
            Some(n) => Some(n as int),
            None => None,
        },
{
    let ghost run = text@.skip(from as int);
    if from == text.len() {
        return None;
    }
    let c = text[from];
    assert(run[0] == c);
    if c == '+' || c == '-' {
        if text.len() - from == 1 {
            return None;
        }
        assert(run.skip(1) =~= text@.skip(from + 1));
        if c == '-' {
            let limit: u128 = 0x8000_0000_0000_0000_0000_0000_0000_0000u128;
            match read_digits(text, from + 1, radix, limit) {
                Some(m) => {
                    if m == 0x8000_0000_0000_0000_0000_0000_0000_0000u128 {
                        Some(i128::MIN)
                    } else {
                        Some(-(m as i128))
                    }
                },
                None => None,
            }
        } else {
            let limit: u128 = 0x7FFF_FFFF_FFFF_FFFF_FFFF_FFFF_FFFF_FFFFu128;
            match read_digits(text, from + 1, radix, limit) {
                Some(m) => Some(m as i128),
                None => None,
            }
        }
    } else {
        match read_digits(text, from, radix, 0x7FFF_FFFF_FFFF_FFFF_FFFF_FFFF_FFFF_FFFFu128) {
            Some(m) => Some(m as i128),
            None => None,
        }
    }
}

/// Reads a decimal integer with an optional sign.
pub fn parse_decimal(text: &Vec<char>) -> (r: Option<i128>)
    ensures
        fit_i128(signed_value(text@, 10)) == match r {
            Some(n) => Some(n as int),
            None => None,
        },
{
    assert(text@.skip(0) =~= text@);
    read_signed(text, 0, 10)
}

/// Reads an integer literal.
pub fn parse_integer(text: &Vec<char>) -> (r: Option<i128>)
    ensures
        integer_of(text@) == match r {
            Some(n) => Some(n as int),
            None => None,
        },
{
    let n = text.len();
    if n > 2 && text[0] == '0' && text[1] == 'x' {
        read_signed(text, 2, 16)
    } else if n > 3 && text[0] == '-' && text[1] == '0' && text[2] == 'x' {
        match read_signed(text, 3, 16) {
            Some(v) => {
                if v == i128::MIN {
                    None
                } else {
                    Some(-v)
                }
            },
            None => None,
        }
    } else {
        assert(text@.skip(0) =~= text@);
        read_signed(text, 0, 10)
    }
}

/// An integer: its literal, not yet read, or its value.
#[derive(Debug)]
pub enum Integral {
    Text { text: Vec<char> },
    Data { value: i128 },
}

/// An integer cell as plain data.
pub enum IntegralView {
    Text(Seq<char>),
    Data(int),
}

impl IntegralView {
    /// The number that the cell stands for, if its text denotes one.
    pub open spec fn value(self) -> Option<int> {
        match self {
            IntegralView::Text(t) => integer_of(t),
            IntegralView::Data(v) => Some(v),
        }
    }

    /// The cell once its literal has been read.
    pub open spec fn computed(self) -> IntegralView {
        match self.value() {
            Some(v) => IntegralView::Data(v),
            None => self,
        }
    }
}

impl View for Integral {
    type V = IntegralView;

    open spec fn view(&self) -> IntegralView {
        match self {
            Integral::Text { text } => IntegralView::Text(text@),
            Integral::Data { value } => IntegralView::Data(*value as int),
        }
    }
}

impl Clone for Integral {
    fn clone(&self) -> (r: Integral)
        ensures
            r@ == self@,
    {
        match self {
            Integral::Text { text } => Integral::Text { text: copy_chars(text) },
            Integral::Data { value } => Integral::Data { value: *value },
        }
    }
}

/// The failure of a literal that denotes no number.
pub(crate) fn invalid_number(text: &Vec<char>) -> (r: Error)
    ensures
        r@.kind == ErrorKind::InvalidNumber,
        r@.origin == "num"@,
        r@.message == text@,
{
    let mut m = String::new();
    push_chars(&mut m, text);
    assert(m@ =~= text@);
    Error::make(ErrorKind::InvalidNumber, "num", m.as_str())
}

/// Largest magnitude up to which every integer is a float.
pub const EXACT_FLOAT_LIMIT: i128 = 9007199254740992;

impl Integral {
    /// A computed cell.
    pub fn new(value: i128) -> (r: Integral)
        ensures
            r@ == IntegralView::Data(value as int),
    {
        Integral::Data { value }
    }

    /// A cell for a literal. A literal shorter than [`DEFER_LIMIT`] bytes is
    /// kept unread, whatever it holds; a longer one is read at once and is
    /// refused where it denotes no integer.
    pub fn from_text(text: &str) -> (r: Result<Integral, Error>)
        ensures
            byte_len(text@) < DEFER_LIMIT ==> r is Ok && r->Ok_0@ == IntegralView::Text(text@),
            byte_len(text@) >= DEFER_LIMIT ==> match integer_of(text@) {
                Some(v) => r is Ok && r->Ok_0@ == IntegralView::Data(v),
                None => r is Err && r->Err_0@.kind == ErrorKind::InvalidNumber,
            },
    {
        Integral::from_chars(chars_of(text))
    }

    /// As [`Integral::from_text`], for a literal held as characters.
    pub(crate) fn from_chars(text: Vec<char>) -> (r: Result<Integral, Error>)
        ensures
            byte_len(text@) < DEFER_LIMIT ==> r is Ok && r->Ok_0@ == IntegralView::Text(text@),
            byte_len(text@) >= DEFER_LIMIT ==> match integer_of(text@) {
                Some(v) => r is Ok && r->Ok_0@ == IntegralView::Data(v),
                None => r is Err && r->Err_0@.kind == ErrorKind::InvalidNumber,
            },
    {
        if shorter_than(&text, DEFER_LIMIT) {
            Ok(Integral::Text { text })
        } else {
            match parse_integer(&text) {
                Some(value) => Ok(Integral::Data { value }),
                None => Err(invalid_number(&text)),
            }
        }
    }

    /// The value, read from the literal where the cell is still deferred;
    /// `None` where the literal denotes no integer.
    pub fn integer(&self) -> (r: Option<i128>)
        ensures
            self@.value() == match r {
                Some(v) => Some(v as int),
                None => None,
            },
    {
        match self {
            Integral::Data { value } => Some(*value),
            Integral::Text { text } => parse_integer(text),
        }
    }

    /// As [`Integral::integer`], with the failure spelled out.
    pub fn integer_result(&self) -> (r: Result<i128, Error>)
        ensures
            match r {
                Ok(v) => self@.value() == Some(v as int),
                Err(e) => self@.value() is None && e@.kind == ErrorKind::InvalidNumber,
            },
    {
        match self {
            Integral::Data { value } => Ok(*value),
            Integral::Text { text } => match parse_integer(text) {
                Some(v) => Ok(v),
                None => Err(invalid_number(text)),
            },
        }
    }

    /// The value as a float, where it is at most 2^53 in magnitude, so that
    /// the float is exactly the integer.
    pub fn float(&self) -> (r: Option<u64>)
        ensures
            match r {
                Some(b) => self@.value() is Some && -EXACT_FLOAT_LIMIT <= self@.value()->0
                    <= EXACT_FLOAT_LIMIT && b == spec_int_to_bits(self@.value()->0),
                None => self@.value() is None || self@.value()->0 < -EXACT_FLOAT_LIMIT
                    || self@.value()->0 > EXACT_FLOAT_LIMIT,
            },
    {
        match self.integer() {
            Some(v) => {
                if -EXACT_FLOAT_LIMIT <= v && v <= EXACT_FLOAT_LIMIT {
                    Some(int_to_bits(v))
                } else {
                    None
                }
            },
            None => None,
        }
    }

    /// Reads the literal and keeps the value in its place. A computed cell
    /// stays as it is; a literal that denotes no integer stays too, and the
    /// call fails.
    pub fn compute(&mut self) -> (r: Result<(), Error>)
        ensures
            final(self)@ == old(self)@.computed(),
            old(self)@.value() is Some <==> r is Ok,
            r is Err ==> r->Err_0@.kind == ErrorKind::InvalidNumber,
    {
        let read = match self {
            Integral::Data { .. } => None,
            Integral::Text { text } => Some((parse_integer(text), invalid_number(text))),
        };
        match read {
            None => Ok(()),
            Some((Some(value), _)) => {
                *self = Integral::Data { value };
                Ok(())
            },
            Some((None, e)) => Err(e),
        }
    }
}

/// A float: its literal with the reading that came with it, or its bits.
///
/// The library does not read float literals. Whoever builds a deferred cell
/// supplies what the literal reads as: the bits of its value, or `None`
/// where the text denotes no number.
#[derive(Debug)]
pub enum Floating {
    Text { text: Vec<char>, value: Option<u64> },
    Data { bits: u64 },
}

/// The reading that optional bits stand for.
pub open spec fn bits_view(v: Option<u64>) -> Reading {
    match v {
        Some(b) => Reading::Bits(b as int),
        None => Reading::Missing,
    }
}

/// What a float literal reads as: nothing, or a bit pattern.
pub enum Reading {
    Missing,
    Bits(int),
}

/// A float cell as plain data. Bit patterns stand as integers below 2^64.
pub enum FloatingView {
    Text(Seq<char>, Reading),
    Data(int),
}

impl FloatingView {
    /// The bits of the number that the cell stands for, if it stands for one.
    pub open spec fn value(self) -> Reading {
        match self {
            FloatingView::Text(_, v) => v,
            FloatingView::Data(b) => Reading::Bits(b),
        }
    }

    /// The cell once its literal has given way to its value.
    pub open spec fn computed(self) -> FloatingView {
        match self.value() {
            Reading::Bits(b) => FloatingView::Data(b),
            Reading::Missing => self,
        }
    }

    /// The cell with the reading `value`, where it is deferred.
    pub open spec fn with_reading(self, value: Reading) -> FloatingView {
        match self {
            FloatingView::Text(t, _) => FloatingView::Text(t, value),
            FloatingView::Data(b) => self,
        }
    }
}

impl View for Floating {
    type V = FloatingView;

    open spec fn view(&self) -> FloatingView {
        match self {
            Floating::Text { text, value } => FloatingView::Text(text@, bits_view(*value)),
            Floating::Data { bits } => FloatingView::Data(*bits as int),
        }
    }
}

impl Clone for Floating {
    fn clone(&self) -> (r: Floating)
        ensures
            r@ == self@,
    {
        match self {
            Floating::Text { text, value } => Floating::Text {
                text: copy_chars(text),
                value: *value,
            },
            Floating::Data { bits } => Floating::Data { bits: *bits },
        }
    }
}

impl Floating {
    /// A computed cell holding the float with these bits.
    pub fn new(bits: u64) -> (r: Floating)
        ensures
            r@ == FloatingView::Data(bits as int),
    {
        Floating::Data { bits }
    }

    /// A deferred cell for a literal, with what the literal reads as.
    pub fn from_text(text: &str, value: Option<u64>) -> (r: Floating)
        ensures
            r@ == FloatingView::Text(text@, bits_view(value)),
    {
        Floating::Text { text: chars_of(text), value }
    }

    /// The literal of a deferred cell.
    pub fn literal(&self) -> (r: Option<String>)
        ensures
            match self@ {
                FloatingView::Text(t, _) => r is Some && r->0@ == t,
                FloatingView::Data(_) => r is None,
            },
    {
        match self {
            Floating::Text { text, .. } => {
                let mut s = String::new();
                push_chars(&mut s, text);
                assert(s@ =~= text@);
                Some(s)
            },
            Floating::Data { .. } => None,
        }
    }

    /// Replaces the reading of a deferred cell; a computed cell stays.
    pub fn set_reading(&mut self, value: Option<u64>)
        ensures
            final(self)@ == old(self)@.with_reading(bits_view(value)),
    {
        match self {
            Floating::Text { value: v, .. } => {
                *v = value;
            },
            Floating::Data { .. } => {},
        }
    }

    /// The bits of the value; `None` where the literal has no reading.
    pub fn float(&self) -> (r: Option<u64>)
        ensures
            bits_view(r) == self@.value(),
    {
        match self {
            Floating::Data { bits } => Some(*bits),
            Floating::Text { value, .. } => *value,
        }
    }

    /// As [`Floating::float`], with the failure spelled out.
    pub fn float_result(&self) -> (r: Result<u64, Error>)
        ensures
            match r {
                Ok(b) => self@.value() == Reading::Bits(b as int),
                Err(e) => self@.value() is Missing && e@.kind == ErrorKind::InvalidNumber,
            },
    {
        match self {
            Floating::Data { bits } => Ok(*bits),
            Floating::Text { text, value } => match value {
                Some(b) => Ok(*b),
                None => Err(invalid_number(text)),
            },
        }
    }

    /// Drops the literal and keeps the value. A computed cell stays as it
    /// is; a literal without a reading stays too, and the call fails.
    pub fn compute(&mut self) -> (r: Result<(), Error>)
        ensures
            final(self)@ == old(self)@.computed(),
            old(self)@.value() is Bits <==> r is Ok,
            r is Err ==> r->Err_0@.kind == ErrorKind::InvalidNumber,
    {
        let read = match self {
            Floating::Data { .. } => None,
            Floating::Text { text, value } => Some((*value, invalid_number(text))),
        };
        match read {
            None => Ok(()),
            Some((Some(bits), _)) => {
                *self = Floating::Data { bits };
                Ok(())
            },
            Some((None, e)) => Err(e),
        }
    }
}

impl IntegralView {
    /// Two cells are equal when both stand for the same number.
    pub open spec fn equal(self, other: IntegralView) -> bool {
        self.value() is Some && self.value() == other.value()
    }

    /// The order of two cells by their numbers; `None` where one stands for
    /// no number.
    pub open spec fn order(self, other: IntegralView) -> Option<Order> {
        match (self.value(), other.value()) {
            (Some(a), Some(b)) => Some(Order::of_ints(a, b)),
            _ => None,
        }
    }
}

impl FloatingView {
    /// Two cells are equal when both have a value and the values are equal
    /// as the machine compares floats.
    pub open spec fn equal(self, other: FloatingView) -> bool {
        self.value() is Bits && other.value() is Bits && machine_equal(
            self.value()->Bits_0,
            other.value()->Bits_0,
        )
    }

    /// The order of two cells on the line on which every bit pattern has
    /// its own place; `None` where one has no value.
    pub open spec fn order(self, other: FloatingView) -> Option<Order> {
        match (self.value(), other.value()) {
            (Reading::Bits(a), Reading::Bits(b)) => Some(pattern_order(a, b)),
            _ => None,
        }
    }
}

impl Integral {
    /// Tells whether two cells stand for the same number, whichever of them
    /// is computed.
    pub fn equals(&self, other: &Integral) -> (r: bool)
        ensures
            r == self@.equal(other@),
    {
        match (self.integer(), other.integer()) {
            (Some(a), Some(b)) => a == b,
            _ => false,
        }
    }

    /// Compares the numbers of two cells, whichever of them is computed.
    pub fn compare(&self, other: &Integral) -> (r: Option<Order>)
        ensures
            r == self@.order(other@),
    {
        match (self.integer(), other.integer()) {
            (Some(a), Some(b)) => Some(
                if a < b {
                    Order::Less
                } else if a == b {
                    Order::Equal
                } else {
                    Order::Greater
                },
            ),
            _ => None,
        }
    }
}

impl Floating {
    /// Tells whether two cells hold floats that the machine takes for
    /// equal, whichever of them is computed.
    pub fn equals(&self, other: &Floating) -> (r: bool)
        ensures
            r == self@.equal(other@),
    {
        match (self.float(), other.float()) {
            (Some(a), Some(b)) => bits_machine_equal(a, b),
            _ => false,
        }
    }

    /// Compares the floats of two cells in the order in which every bit
    /// pattern has its own place, whichever of them is computed.
    pub fn compare(&self, other: &Floating) -> (r: Option<Order>)
        ensures
            r == self@.order(other@),
    {
        match (self.float(), other.float()) {
            (Some(a), Some(b)) => Some(bits_pattern_order(a, b)),
            _ => None,
        }
    }
}

} // verus!
