//! Arithmetic and logic on values.
//!
//! Every operation returns a value. Where the operands do not fit the
//! operation, the value is a failure. Where the result is a float that only
//! floating-point arithmetic can give, the operation returns the request
//! for it: the operator and the bits of its two operands.

use crate::error::{Error, ErrorKind};
use crate::float::{bits_is_zero, bits_negate, int_to_bits, is_negative, is_zero, magnitude};
use crate::json::{
    equal,
    items_view,
    lemma_array_view,
    lemma_object_view,
    members_view,
    sorted,
    spec_truth,
    Json,
    Member,
    Value,
};
use crate::num::{
    fit_i128,
    parse_decimal,
    signed_value,
    Floating,
    FloatingView,
    Integral,
    IntegralView,
    Reading,
};
use crate::property::{lower_bound, position, search, upsert, upsert_object_key, Property};
use crate::text::{chars_of, push_str, seq_order};
use vstd::prelude::*;

verus! {

/// The index that `off` denotes in a sequence of `len` items: itself where
/// it is not negative, counted from the end where it is. `None` where that
/// is no index of the sequence.
pub open spec fn spec_offset(off: int, len: int) -> Option<int> {
    let at = if off < 0 {
        off + len
    } else {
        off
    };
    if 0 <= at < len {
        Some(at)
    } else {
        None
    }
}

/// Turns an index that may count from the end into one that counts from the
/// start.
pub fn normalized_offset(off: isize, len: usize) -> (r: Option<usize>)
    ensures
        spec_offset(off as int, len as int) == match r {
            Some(i) => Some(i as int),
            None => None,
        },
{
    let wide: i128 = if off < 0 {
        off as i128 + len as i128
    } else {
        off as i128
    };
    if 0 <= wide && wide < len as i128 {
        Some(wide as usize)
    } else {
        None
    }
}

/// An operation on two floats that the library leaves to its caller.
#[derive(Clone, Copy, Debug, PartialEq, Eq, Structural)]
pub enum FloatOp {
    Add,
    Sub,
    Mul,
    Div,
    Rem,
}

/// What an operation returns: a value, or the float operation whose result
/// is the value.
#[derive(Debug)]
pub enum Calc {
    Done(Json),
    Float(FloatOp, u64, u64),
}

/// What an operation is to return: a value, a float operation on two bit
/// patterns, or a failure of a given kind.
pub enum Outcome {
    Value(Value),
    Float(FloatOp, int, int),
    Fail(ErrorKind),
}

impl Calc {
    /// Tells whether what was returned is what was to be returned: the same
    /// value, the same request, or a failure of the same kind.
    pub open spec fn meets(self, o: Outcome) -> bool {
        match o {
            Outcome::Value(v) => self is Done && self->Done_0@ == v,
            Outcome::Float(op, a, b) => self == Calc::Float(op, a as u64, b as u64) && 0 <= a
                <= u64::MAX && 0 <= b <= u64::MAX,
            Outcome::Fail(k) => self is Done && self->Done_0@ is Error
                && self->Done_0@->Error_0.kind == k,
        }
    }
}

/// The two operands of an arithmetic operation, as far as they are numbers.
pub enum Operands {
    /// Two integers with their values.
    Ints(int, int),
    /// Two numbers of which at least one is a float, both as floats.
    Floats(int, int),
    /// Two numbers of which one has no value.
    Invalid,
    /// Not two numbers.
    Other,
}

/// Two operands as numbers: two integers stay integers, with a float among
/// them an integer is promoted.
pub open spec fn spec_operands(a: Value, b: Value) -> Operands {
    match (a, b) {
        (Value::Integer(x), Value::Integer(y)) => match (x.value(), y.value()) {
            (Some(p), Some(q)) => Operands::Ints(p, q),
            _ => Operands::Invalid,
        },
        (Value::Integer(_), Value::Float(_)) | (Value::Float(_), Value::Integer(_)) | (
            Value::Float(_),
            Value::Float(_),
        ) => match (a.float_bits(), b.float_bits()) {
            (Some(p), Some(q)) => Operands::Floats(p, q),
            _ => Operands::Invalid,
        },
        _ => Operands::Other,
    }
}

enum Pair {
    Ints(i128, i128),
    Floats(u64, u64),
    Invalid,
    Other,
}

fn number_bits(v: &Json) -> (r: Option<u64>)
    ensures
        v@.float_bits() == match r {
            Some(b) => Some(b as int),
            None => None,
        },
{
    match v {
        Json::Integer(c) => match c.integer() {
            Some(n) => Some(int_to_bits(n)),
            None => None,
        },
        Json::Float(c) => c.float(),
        _ => None,
    }
}

fn operands(a: &Json, b: &Json) -> (r: Pair)
    ensures
        match r {
            Pair::Ints(p, q) => spec_operands(a@, b@) == Operands::Ints(p as int, q as int),
            Pair::Floats(p, q) => spec_operands(a@, b@) == Operands::Floats(p as int, q as int),
            Pair::Invalid => spec_operands(a@, b@) is Invalid,
            Pair::Other => spec_operands(a@, b@) is Other,
        },
{
    match (a, b) {
        (Json::Integer(x), Json::Integer(y)) => match (x.integer(), y.integer()) {
            (Some(p), Some(q)) => Pair::Ints(p, q),
            _ => Pair::Invalid,
        },
        (Json::Integer(_), Json::Float(_)) | (Json::Float(_), Json::Integer(_)) | (
            Json::Float(_),
            Json::Float(_),
        ) => match (number_bits(a), number_bits(b)) {
            (Some(p), Some(q)) => Pair::Floats(p, q),
            _ => Pair::Invalid,
        },
        _ => Pair::Other,
    }
}

/// The failure value of the given kind for an operation on two values.
fn failure(kind: ErrorKind, op: &str, x: &Json, y: &Json) -> (r: Calc)
    ensures
        r.meets(Outcome::Fail(kind)),
{
    let mut m = x.typename();
    push_str(&mut m, " ");
    push_str(&mut m, op);
    push_str(&mut m, " ");
    push_str(&mut m, y.typename().as_str());
    Calc::Done(Json::__Error(Error::make(kind, "ops", m.as_str())))
}

fn done_integer(v: i128) -> (r: Calc)
    ensures
        r.meets(Outcome::Value(Value::Integer(IntegralView::Data(v as int)))),
{
    Calc::Done(Json::Integer(Integral::new(v)))
}

/// The members `b[..n]` put one after the other among the members `a`.
pub open spec fn upsert_all(a: Seq<Member>, b: Seq<Member>, n: int) -> Seq<Member>
    decreases n,
{
    if n <= 0 || n > b.len() {
        a
    } else {
        upsert(upsert_all(a, b, n - 1), b[n - 1])
    }
}

/// Index of the first item of `hay` that `x` equals, or the length of `hay`
/// where there is none.
pub open spec fn index_of_equal(hay: Seq<Value>, x: Value) -> int
    decreases hay.len(),
{
    if hay.len() == 0 {
        0
    } else if equal(x, hay[0]) {
        0
    } else {
        1 + index_of_equal(hay.drop_first(), x)
    }
}

/// `hay` without the first of its items that `x` equals.
pub open spec fn without(hay: Seq<Value>, x: Value) -> Seq<Value> {
    let i = index_of_equal(hay, x);
    if 0 <= i < hay.len() {
        hay.remove(i)
    } else {
        hay
    }
}

/// `hay` after, for each of `xs[..n]` in turn, the first item that it equals
/// has been taken out.
pub open spec fn without_all(hay: Seq<Value>, xs: Seq<Value>, n: int) -> Seq<Value>
    decreases n,
{
    if n <= 0 || n > xs.len() {
        hay
    } else {
        without(without_all(hay, xs, n - 1), xs[n - 1])
    }
}

/// Tells whether two members are equal: the same key and equal values.
pub open spec fn member_equal(x: Member, y: Member) -> bool {
    x.key == y.key && equal(x.value, y.value)
}

/// Index of the first member of `hay` that `x` equals, or the length of
/// `hay` where there is none.
pub open spec fn index_of_member(hay: Seq<Member>, x: Member) -> int
    decreases hay.len(),
{
    if hay.len() == 0 {
        0
    } else if member_equal(x, hay[0]) {
        0
    } else {
        1 + index_of_member(hay.drop_first(), x)
    }
}

/// `hay` without the first of its members that `x` equals.
pub open spec fn without_member(hay: Seq<Member>, x: Member) -> Seq<Member> {
    let i = index_of_member(hay, x);
    if 0 <= i < hay.len() {
        hay.remove(i)
    } else {
        hay
    }
}

/// `hay` after, for each of `xs[..n]` in turn, the first member that it
/// equals has been taken out.
pub open spec fn without_members(hay: Seq<Member>, xs: Seq<Member>, n: int) -> Seq<Member>
    decreases n,
{
    if n <= 0 || n > xs.len() {
        hay
    } else {
        without_member(without_members(hay, xs, n - 1), xs[n - 1])
    }
}

/// The sum of two values. Null leaves the other operand as it is. Two
/// integers give their sum, a failure where it does not fit 128 bits; with a
/// float among two numbers the sum is a float's. Two strings and two arrays
/// are joined. Two objects give the members of both, those of the right one
/// winning where a key is in both.
pub open spec fn spec_add(a: Value, b: Value) -> Outcome {
    if a is Null {
        Outcome::Value(b)
    } else if b is Null {
        Outcome::Value(a)
    } else {
        match spec_operands(a, b) {
            Operands::Ints(p, q) => if i128::MIN <= p + q <= i128::MAX {
                Outcome::Value(Value::Integer(IntegralView::Data(p + q)))
            } else {
                Outcome::Fail(ErrorKind::AddFail)
            },
            Operands::Floats(p, q) => Outcome::Float(FloatOp::Add, p, q),
            Operands::Invalid => Outcome::Fail(ErrorKind::InvalidNumber),
            Operands::Other => match (a, b) {
                (Value::String(x), Value::String(y)) => Outcome::Value(Value::String(x + y)),
                (Value::Array(x), Value::Array(y)) => Outcome::Value(Value::Array(x + y)),
                (Value::Object(x), Value::Object(y)) => Outcome::Value(
                    Value::Object(
                        upsert_all(upsert_all(Seq::empty(), x, x.len() as int), y, y.len() as int),
                    ),
                ),
                _ => Outcome::Fail(ErrorKind::AddFail),
            },
        }
    }
}

/// The difference of two values. Null leaves the other operand as it is.
/// Two integers give their difference, a failure where it does not fit 128
/// bits; with a float among two numbers the difference is a float's. From an
/// array, for each item of the right operand in turn, the first item equal
/// to it is taken out; from an object likewise, member by member.
pub open spec fn spec_sub(a: Value, b: Value) -> Outcome {
    if a is Null {
        Outcome::Value(b)
    } else if b is Null {
        Outcome::Value(a)
    } else {
        match spec_operands(a, b) {
            Operands::Ints(p, q) => if i128::MIN <= p - q <= i128::MAX {
                Outcome::Value(Value::Integer(IntegralView::Data(p - q)))
            } else {
                Outcome::Fail(ErrorKind::SubFail)
            },
            Operands::Floats(p, q) => Outcome::Float(FloatOp::Sub, p, q),
            Operands::Invalid => Outcome::Fail(ErrorKind::InvalidNumber),
            Operands::Other => match (a, b) {
                (Value::Array(x), Value::Array(y)) => Outcome::Value(
                    Value::Array(without_all(x, y, y.len() as int)),
                ),
                (Value::Object(x), Value::Object(y)) => Outcome::Value(
                    Value::Object(without_members(x, y, y.len() as int)),
                ),
                _ => Outcome::Fail(ErrorKind::SubFail),
            },
        }
    }
}

/// Puts every property of `from` among `into`.
fn upsert_every(into: &mut Vec<Property>, from: Vec<Property>)
    requires
        sorted(members_view(old(into)@)),
    ensures
        members_view(final(into)@) == upsert_all(
            members_view(old(into)@),
            members_view(from@),
            from.len() as int,
        ),
        sorted(members_view(final(into)@)),
{
    let ghost start = members_view(into@);
    let ghost all = members_view(from@);
    let mut from = from;
    let mut rest: Vec<Property> = Vec::new();
    let n = from.len();
    // Reverse once, so that the properties can be moved out in their order.
    let mut k: usize = 0;
    while k < n
        invariant
            k <= n,
            from.len() == n - k,
            rest.len() == k,
            forall|j: int| 0 <= j < n - k ==> (#[trigger] from[j])@ == all[j],
            forall|j: int| 0 <= j < k ==> (#[trigger] rest[j])@ == all[n - 1 - j],
        decreases n - k,
    {
        let p = from.pop().unwrap();
        rest.push(p);
        k = k + 1;
    }
    let mut i: usize = 0;
    while i < n
        invariant
            i <= n,
            rest.len() == n - i,
            all.len() == n,
            forall|j: int| 0 <= j < n - i ==> (#[trigger] rest[j])@ == all[n - 1 - j],
            members_view(into@) == upsert_all(start, all, i as int),
            sorted(members_view(into@)),
        decreases n - i,
    {
        let p = rest.pop().unwrap();
        upsert_object_key(into, p);
        i = i + 1;
    }
}

fn position_of(hay: &Vec<Json>, x: &Json) -> (r: usize)
    ensures
        r == index_of_equal(items_view(hay@), x@),
        r <= hay.len(),
{
    let ghost all = items_view(hay@);
    let mut i: usize = 0;
    assert(all.skip(0) =~= all);
    while i < hay.len()
        invariant
            i <= hay.len(),
            all == items_view(hay@),
            index_of_equal(all, x@) == i + index_of_equal(all.skip(i as int), x@),
        decreases hay.len() - i,
    {
        if x.equals(&hay[i]) {
            return i;
        }
        assert(all.skip(i as int).drop_first() =~= all.skip(i + 1));
        i = i + 1;
    }
    i
}

fn position_of_member(hay: &Vec<Property>, x: &Property) -> (r: usize)
    ensures
        r == index_of_member(members_view(hay@), x@),
        r <= hay.len(),
{
    let ghost all = members_view(hay@);
    let mut i: usize = 0;
    assert(all.skip(0) =~= all);
    while i < hay.len()
        invariant
            i <= hay.len(),
            all == members_view(hay@),
            index_of_member(all, x@) == i + index_of_member(all.skip(i as int), x@),
        decreases hay.len() - i,
    {
        if x.key == hay[i].key && x.value.equals(&hay[i].value) {
            return i;
        }
        assert(all.skip(i as int).drop_first() =~= all.skip(i + 1));
        i = i + 1;
    }
    i
}

impl Json {
    /// Adds two values.
    pub fn add(self, rhs: Json) -> (r: Calc)
        ensures
            r.meets(spec_add(self@, rhs@)),
    {
        if self.is_null() {
            return Calc::Done(rhs);
        }
        if rhs.is_null() {
            return Calc::Done(self);
        }
        match operands(&self, &rhs) {
            Pair::Ints(p, q) => match p.checked_add(q) {
                Some(v) => done_integer(v),
                None => failure(ErrorKind::AddFail, "+", &self, &rhs),
            },
            Pair::Floats(p, q) => Calc::Float(FloatOp::Add, p, q),
            Pair::Invalid => failure(ErrorKind::InvalidNumber, "+", &self, &rhs),
            Pair::Other => match (self, rhs) {
                (Json::String(mut x), Json::String(y)) => {
                    push_str(&mut x, y.as_str());
                    Calc::Done(Json::String(x))
                },
                (Json::Array(mut x), Json::Array(mut y)) => {
                    proof {
                        lemma_array_view(x);
                        lemma_array_view(y);
                    }
                    let ghost xs = items_view(x@);
                    let ghost ys = items_view(y@);
                    x.append(&mut y);
                    proof {
                        lemma_array_view(x);
                        assert(items_view(x@) =~= xs + ys);
                    }
                    Calc::Done(Json::Array(x))
                },
                (Json::Object(x), Json::Object(y)) => {
                    proof {
                        lemma_object_view(x);
                        lemma_object_view(y);
                    }
                    let mut out: Vec<Property> = Vec::new();
                    assert(members_view(out@) =~= Seq::<Member>::empty());
                    upsert_every(&mut out, x);
                    upsert_every(&mut out, y);
                    proof {
                        lemma_object_view(out);
                    }
                    Calc::Done(Json::Object(out))
                },
                (x, y) => failure(ErrorKind::AddFail, "+", &x, &y),
            },
        }
    }

    /// Subtracts the right value from the left one.
    pub fn sub(self, rhs: Json) -> (r: Calc)
        ensures
            r.meets(spec_sub(self@, rhs@)),
    {
        if self.is_null() {
            return Calc::Done(rhs);
        }
        if rhs.is_null() {
            return Calc::Done(self);
        }
        match operands(&self, &rhs) {
            Pair::Ints(p, q) => match p.checked_sub(q) {
                Some(v) => done_integer(v),
                None => failure(ErrorKind::SubFail, "-", &self, &rhs),
            },
            Pair::Floats(p, q) => Calc::Float(FloatOp::Sub, p, q),
            Pair::Invalid => failure(ErrorKind::InvalidNumber, "-", &self, &rhs),
            Pair::Other => match (self, rhs) {
                (Json::Array(mut x), Json::Array(y)) => {
                    proof {
                        lemma_array_view(x);
                        lemma_array_view(y);
                    }
                    let ghost xs = items_view(x@);
                    let ghost ys = items_view(y@);
                    let mut i: usize = 0;
                    while i < y.len()
                        invariant
                            i <= y.len(),
                            ys == items_view(y@),
                            items_view(x@) == without_all(xs, ys, i as int),
                        decreases y.len() - i,
                    {
                        let at = position_of(&x, &y[i]);
                        if at < x.len() {
                            let ghost before = items_view(x@);
                            let _ = x.remove(at);
                            assert(items_view(x@) =~= before.remove(at as int));
                        }
                        i = i + 1;
                    }
                    proof {
                        lemma_array_view(x);
                    }
                    Calc::Done(Json::Array(x))
                },
                (Json::Object(mut x), Json::Object(y)) => {
                    proof {
                        lemma_object_view(x);
                        lemma_object_view(y);
                    }
                    let ghost xs = members_view(x@);
                    let ghost ys = members_view(y@);
                    let mut i: usize = 0;
                    while i < y.len()
                        invariant
                            i <= y.len(),
                            ys == members_view(y@),
                            members_view(x@) == without_members(xs, ys, i as int),
                        decreases y.len() - i,
                    {
                        let at = position_of_member(&x, &y[i]);
                        if at < x.len() {
                            let ghost before = members_view(x@);
                            let _ = x.remove(at);
                            assert(members_view(x@) =~= before.remove(at as int));
                        }
                        i = i + 1;
                    }
                    proof {
                        lemma_object_view(x);
                    }
                    Calc::Done(Json::Object(x))
                },
                (x, y) => failure(ErrorKind::SubFail, "-", &x, &y),
            },
        }
    }
}

/// `s` written `n` times in a row.
pub open spec fn repeated(s: Seq<char>, n: int) -> Seq<char>
    decreases n,
{
    if n <= 0 {
        Seq::empty()
    } else {
        repeated(s, n - 1) + s
    }
}

/// The quotient of two integers, rounded toward zero.
pub open spec fn trunc_div(x: int, d: int) -> int {
    if x == 0 {
        0
    } else if x > 0 && d > 0 {
        x / d
    } else if x < 0 && d < 0 {
        (x * -1) / (d * -1)
    } else if x < 0 {
        ((x * -1) / d) * -1
    } else {
        (x / (d * -1)) * -1
    }
}

/// What is left of `x` after division by `d`, with the sign of `x`.
pub open spec fn trunc_rem(x: int, d: int) -> int {
    if x == 0 {
        0
    } else if x > 0 && d > 0 {
        x % d
    } else if x < 0 && d < 0 {
        ((x * -1) % (d * -1)) * -1
    } else if x < 0 {
        ((x * -1) % d) * -1
    } else {
        x % (d * -1)
    }
}

/// The members `acc` after `m` has been merged into them: put where its key
/// belongs if the key is new, merged member by member into the member with
/// the same key if both values are objects, put in that member's place
/// otherwise.
pub open spec fn merge_member(acc: Seq<Member>, m: Member) -> Seq<Member>
    decreases m, 0int,
{
    let i = lower_bound(acc, m.key);
    if 0 <= i < acc.len() && acc[i].key == m.key {
        match (acc[i].value, m.value) {
            (Value::Object(x), Value::Object(y)) => acc.update(
                i,
                Member { key: m.key, value: Value::Object(merge_all(x, y, y.len() as int)) },
            ),
            _ => acc.update(i, m),
        }
    } else {
        acc.insert(i, m)
    }
}

/// The members `acc` after the members `b[..n]` have been merged into them
/// one after the other.
pub open spec fn merge_all(acc: Seq<Member>, b: Seq<Member>, n: int) -> Seq<Member>
    decreases b, n,
{
    if n <= 0 || n > b.len() {
        acc
    } else {
        merge_member(merge_all(acc, b, n - 1), b[n - 1])
    }
}

/// The result of a multiplication by a string: nothing for a count of zero
/// or less, the string that many times otherwise.
pub open spec fn spec_repeat(s: Seq<char>, c: IntegralView) -> Outcome {
    match c.value() {
        Some(n) => if n <= 0 {
            Outcome::Value(Value::Null)
        } else if n <= usize::MAX {
            Outcome::Value(Value::String(repeated(s, n)))
        } else {
            Outcome::Fail(ErrorKind::MulFail)
        },
        None => Outcome::Fail(ErrorKind::InvalidNumber),
    }
}

/// The product of two values. With null on either side it is null. Two
/// integers give their product, a failure where it does not fit 128 bits;
/// with a float among two numbers the product is a float's. A string and an
/// integer give the string repeated. Two objects, both with sorted members
/// at every depth, are merged member by member.
pub open spec fn spec_mul(a: Value, b: Value) -> Outcome {
    if a is Null || b is Null {
        Outcome::Value(Value::Null)
    } else {
        match spec_operands(a, b) {
            Operands::Ints(p, q) => if i128::MIN <= p * q <= i128::MAX {
                Outcome::Value(Value::Integer(IntegralView::Data(p * q)))
            } else {
                Outcome::Fail(ErrorKind::MulFail)
            },
            Operands::Floats(p, q) => Outcome::Float(FloatOp::Mul, p, q),
            Operands::Invalid => Outcome::Fail(ErrorKind::InvalidNumber),
            Operands::Other => match (a, b) {
                (Value::String(s), Value::Integer(c)) => spec_repeat(s, c),
                (Value::Integer(c), Value::String(s)) => spec_repeat(s, c),
                (Value::Object(x), Value::Object(y)) => if a.wf() && b.wf() {
                    Outcome::Value(
                        Value::Object(
                            merge_all(
                                merge_all(Seq::empty(), x, x.len() as int),
                                y,
                                y.len() as int,
                            ),
                        ),
                    )
                } else {
                    Outcome::Fail(ErrorKind::MulFail)
                },
                _ => Outcome::Fail(ErrorKind::MulFail),
            },
        }
    }
}

/// The quotient of two values. With null on either side, and with a zero
/// divisor, it is null. Two integers give their quotient rounded toward
/// zero, a failure where it does not fit 128 bits; with a float among two
/// numbers the quotient is a float's.
pub open spec fn spec_div(a: Value, b: Value) -> Outcome {
    if a is Null || b is Null {
        Outcome::Value(Value::Null)
    } else {
        match spec_operands(a, b) {
            Operands::Ints(p, q) => if q == 0 {
                Outcome::Value(Value::Null)
            } else if p == i128::MIN && q == -1 {
                Outcome::Fail(ErrorKind::DivFail)
            } else {
                Outcome::Value(Value::Integer(IntegralView::Data(trunc_div(p, q))))
            },
            Operands::Floats(p, q) => if is_zero(q) {
                Outcome::Value(Value::Null)
            } else {
                Outcome::Float(FloatOp::Div, p, q)
            },
            Operands::Invalid => Outcome::Fail(ErrorKind::InvalidNumber),
            Operands::Other => Outcome::Fail(ErrorKind::DivFail),
        }
    }
}

/// The remainder of two values. With null on either side, and with a zero
/// divisor, it is null. Two integers give the remainder with the sign of the
/// dividend, a failure for the one division that does not fit 128 bits; with
/// a float among two numbers the remainder is a float's.
pub open spec fn spec_rem(a: Value, b: Value) -> Outcome {
    if a is Null || b is Null {
        Outcome::Value(Value::Null)
    } else {
        match spec_operands(a, b) {
            Operands::Ints(p, q) => if q == 0 {
                Outcome::Value(Value::Null)
            } else if p == i128::MIN && q == -1 {
                Outcome::Fail(ErrorKind::RemFail)
            } else {
                Outcome::Value(Value::Integer(IntegralView::Data(trunc_rem(p, q))))
            },
            Operands::Floats(p, q) => if is_zero(q) {
                Outcome::Value(Value::Null)
            } else {
                Outcome::Float(FloatOp::Rem, p, q)
            },
            Operands::Invalid => Outcome::Fail(ErrorKind::InvalidNumber),
            Operands::Other => Outcome::Fail(ErrorKind::RemFail),
        }
    }
}

/// The bits of a float with its sign turned.
pub open spec fn negated_bits(b: int) -> int {
    if is_negative(b) {
        magnitude(b)
    } else {
        b + crate::float::SIGN_BIT
    }
}

/// The negation of a value: null for null, the number with the other sign
/// for a number, a failure for anything else and for the one integer whose
/// negation does not fit 128 bits.
pub open spec fn spec_neg(a: Value) -> Outcome {
    match a {
        Value::Null => Outcome::Value(Value::Null),
        Value::Integer(c) => match c.value() {
            Some(n) => if n == i128::MIN {
                Outcome::Fail(ErrorKind::NegFail)
            } else {
                Outcome::Value(Value::Integer(IntegralView::Data(-n)))
            },
            None => Outcome::Fail(ErrorKind::InvalidNumber),
        },
        Value::Float(c) => match c.value() {
            Reading::Bits(b) => Outcome::Value(Value::Float(FloatingView::Data(negated_bits(b)))),
            Reading::Missing => Outcome::Fail(ErrorKind::InvalidNumber),
        },
        _ => Outcome::Fail(ErrorKind::NegFail),
    }
}

fn repeat(s: &str, count: &Integral) -> (r: Calc)
    ensures
        r.meets(spec_repeat(s@, count@)),
{
    match count.integer() {
        None => Calc::Done(
            Json::__Error(Error::make(ErrorKind::InvalidNumber, "ops", "string * integer")),
        ),
        Some(n) => {
            if n <= 0 {
                Calc::Done(Json::Null)
            } else if n > usize::MAX as i128 {
                Calc::Done(
                    Json::__Error(Error::make(ErrorKind::MulFail, "ops", "string * integer")),
                )
            } else {
                let mut out = String::new();
                let mut i: i128 = 0;
                while i < n
                    invariant
                        0 <= i <= n,
                        out@ == repeated(s@, i as int),
                    decreases n - i,
                {
                    push_str(&mut out, s);
                    i = i + 1;
                }
                Calc::Done(Json::String(out))
            }
        },
    }
}

/// The properties in the opposite order.
fn reversed(v: Vec<Property>) -> (r: Vec<Property>)
    ensures
        r.len() == v.len(),
        forall|j: int| 0 <= j < v.len() ==> (#[trigger] r[j]) == v[v.len() - 1 - j],
{
    let ghost all = v@;
    let mut from = v;
    let mut out: Vec<Property> = Vec::new();
    let n = from.len();
    let mut k: usize = 0;
    while k < n
        invariant
            k <= n,
            all.len() == n,
            from.len() == n - k,
            out.len() == k,
            forall|j: int| 0 <= j < n - k ==> (#[trigger] from[j]) == all[j],
            forall|j: int| 0 <= j < k ==> (#[trigger] out[j]) == all[n - 1 - j],
        decreases n - k,
    {
        let p = from.pop().unwrap();
        out.push(p);
        k = k + 1;
    }
    out
}

/// The quotient of two 128-bit integers fits 128 bits, but for the one
/// division of the smallest integer by minus one.
pub proof fn lemma_trunc_div_fits(x: int, d: int)
    requires
        i128::MIN <= x <= i128::MAX,
        i128::MIN <= d <= i128::MAX,
        d != 0,
        !(x == i128::MIN && d == -1),
    ensures
        i128::MIN <= trunc_div(x, d) <= i128::MAX,
{
    let a = if x < 0 {
        -x
    } else {
        x
    };
    let b = if d < 0 {
        -d
    } else {
        d
    };
    assert(0 <= a / b <= a) by (nonlinear_arith)
        requires
            a >= 0,
            b >= 1,
    ;
    if b >= 2 {
        assert(2 * (a / b) <= a) by (nonlinear_arith)
            requires
                a >= 0,
                b >= 2,
        ;
    }
}

/// The remainder of two 128-bit integers fits 128 bits.
pub proof fn lemma_trunc_rem_fits(x: int, d: int)
    requires
        i128::MIN <= x <= i128::MAX,
        i128::MIN <= d <= i128::MAX,
        d != 0,
    ensures
        i128::MIN <= trunc_rem(x, d) <= i128::MAX,
{
    let a = if x < 0 {
        -x
    } else {
        x
    };
    let b = if d < 0 {
        -d
    } else {
        d
    };
    assert(0 <= a % b < b) by (nonlinear_arith)
        requires
            a >= 0,
            b >= 1,
    ;
}

/// Merging members that are sorted at every depth leaves them so.
pub proof fn lemma_merge_member_wf(acc: Seq<Member>, m: Member)
    requires
        Value::Object(acc).wf(),
        m.value.wf(),
    ensures
        Value::Object(merge_member(acc, m)).wf(),
    decreases m, 0int,
{
    let i = lower_bound(acc, m.key);
    let out = merge_member(acc, m);
    assert(Value::Object(acc)->Object_0 =~= acc);
    assert(Value::Object(out)->Object_0 =~= out);
    crate::property::lemma_lower_bound(acc, m.key);
    if 0 <= i < acc.len() && acc[i].key == m.key {
        let merged: Member = match (acc[i].value, m.value) {
            (Value::Object(x), Value::Object(y)) => {
                assert(acc[i].value.wf());
                lemma_merge_all_wf(x, y, y.len() as int);
                Member { key: m.key, value: Value::Object(merge_all(x, y, y.len() as int)) }
            },
            _ => m,
        };
        assert(out == acc.update(i, merged));
        assert forall|p: int, q: int| 0 <= p < q < out.len() implies seq_order(
            #[trigger] out[p].key,
            #[trigger] out[q].key,
        ) == crate::order::Order::Less by {
            assert(out[p].key == acc[p].key);
            assert(out[q].key == acc[q].key);
        }
        assert forall|k: int| 0 <= k < out.len() implies (#[trigger] out[k]).value.wf() by {
            if k != i {
                assert(out[k] == acc[k]);
            }
        }
    } else {
        assert(out == upsert(acc, m));
        crate::property::lemma_upsert_sorted(acc, m);
        crate::property::lemma_upsert_members(acc, m);
        assert forall|k: int| 0 <= k < out.len() implies (#[trigger] out[k]).value.wf() by {
            if out[k] != m {
                let w = choose|w: int| 0 <= w < acc.len() && acc[w] == out[k];
                assert(acc[w].value.wf());
            }
        }
    }
}

/// As [`lemma_merge_member_wf`], for one member after the other.
pub proof fn lemma_merge_all_wf(acc: Seq<Member>, b: Seq<Member>, n: int)
    requires
        Value::Object(acc).wf(),
        Value::Object(b).wf(),
    ensures
        Value::Object(merge_all(acc, b, n)).wf(),
    decreases b, n,
{
    if n <= 0 || n > b.len() {
    } else {
        lemma_merge_all_wf(acc, b, n - 1);
        assert(Value::Object(b)->Object_0 =~= b);
        assert(b[n - 1].value.wf());
        lemma_merge_member_wf(merge_all(acc, b, n - 1), b[n - 1]);
    }
}

/// Merges the properties `other` into the properties `this`.
fn mixin_object(this: Vec<Property>, other: Vec<Property>) -> (r: Vec<Property>)
    requires
        Value::Object(members_view(this@)).wf(),
        Value::Object(members_view(other@)).wf(),
    ensures
        members_view(r@) == merge_all(
            members_view(this@),
            members_view(other@),
            other.len() as int,
        ),
        Value::Object(members_view(r@)).wf(),
    decreases other,
{
    let ghost start = members_view(this@);
    let ghost all = members_view(other@);
    let ghost before = other;
    let n = other.len();
    let mut rest = reversed(other);
    let mut acc = this;
    let mut i: usize = 0;
    while i < n
        invariant
            i <= n,
            rest.len() == n - i,
            all.len() == n,
            before.len() == n,
            before == other,
            all == members_view(before@),
            forall|j: int| 0 <= j < n - i ==> (#[trigger] rest[j]) == before[n - 1 - j],
            members_view(acc@) == merge_all(start, all, i as int),
            Value::Object(members_view(acc@)).wf(),
            Value::Object(all).wf(),
        decreases n - i,
    {
        let o = rest.pop().unwrap();
        let ghost m = o@;
        let ghost prev = members_view(acc@);
        proof {
            assert(o == before[i as int]);
            assert(m == all[i as int]);
            assert(Value::Object(all)->Object_0 =~= all);
            assert(Value::Object(prev)->Object_0 =~= prev);
            assert(m.value.wf());
            lemma_merge_member_wf(prev, m);
            assert(decreases_to!(before => before[i as int]));
        }
        match search(&acc, o.key.as_str()) {
            Ok(off) => {
                let old = acc.remove(off);
                let merged = match (old.value, o.value) {
                    (Json::Object(x), Json::Object(y)) => {
                        proof {
                            lemma_object_view(x);
                            lemma_object_view(y);
                            assert(prev[off as int].value.wf());
                        }
                        let inner = mixin_object(x, y);
                        proof {
                            lemma_object_view(inner);
                        }
                        Property { key: o.key, value: Json::Object(inner) }
                    },
                    (_, v) => Property { key: o.key, value: v },
                };
                acc.insert(off, merged);
                assert(members_view(acc@) =~= merge_member(prev, m));
            },
            Err(off) => {
                acc.insert(off, o);
                assert(members_view(acc@) =~= merge_member(prev, m));
            },
        }
        i = i + 1;
    }
    acc
}

impl Json {
    /// Multiplies two values.
    pub fn mul(self, rhs: Json) -> (r: Calc)
        ensures
            r.meets(spec_mul(self@, rhs@)),
    {
        if self.is_null() || rhs.is_null() {
            return Calc::Done(Json::Null);
        }
        match operands(&self, &rhs) {
            Pair::Ints(p, q) => match p.checked_mul(q) {
                Some(v) => done_integer(v),
                None => failure(ErrorKind::MulFail, "*", &self, &rhs),
            },
            Pair::Floats(p, q) => Calc::Float(FloatOp::Mul, p, q),
            Pair::Invalid => failure(ErrorKind::InvalidNumber, "*", &self, &rhs),
            Pair::Other => {
                if !self.is_wf() || !rhs.is_wf() {
                    return match (&self, &rhs) {
                        (Json::String(s), Json::Integer(c)) => repeat(s.as_str(), c),
                        (Json::Integer(c), Json::String(s)) => repeat(s.as_str(), c),
                        _ => failure(ErrorKind::MulFail, "*", &self, &rhs),
                    };
                }
                match (self, rhs) {
                    (Json::String(s), Json::Integer(c)) => repeat(s.as_str(), &c),
                    (Json::Integer(c), Json::String(s)) => repeat(s.as_str(), &c),
                    (Json::Object(x), Json::Object(y)) => {
                        proof {
                            lemma_object_view(x);
                            lemma_object_view(y);
                        }
                        let empty: Vec<Property> = Vec::new();
                        assert(members_view(empty@) =~= Seq::<Member>::empty());
                        assert(Value::Object(members_view(empty@))->Object_0 =~= members_view(
                            empty@,
                        ));
                        let first = mixin_object(empty, x);
                        let out = mixin_object(first, y);
                        proof {
                            lemma_object_view(out);
                        }
                        Calc::Done(Json::Object(out))
                    },
                    (x, y) => failure(ErrorKind::MulFail, "*", &x, &y),
                }
            },
        }
    }

    /// Divides the left value by the right one.
    pub fn div(self, rhs: Json) -> (r: Calc)
        ensures
            r.meets(spec_div(self@, rhs@)),
    {
        if self.is_null() || rhs.is_null() {
            return Calc::Done(Json::Null);
        }
        match operands(&self, &rhs) {
            Pair::Ints(p, q) => {
                if q == 0 {
                    Calc::Done(Json::Null)
                } else if p == i128::MIN && q == -1 {
                    failure(ErrorKind::DivFail, "/", &self, &rhs)
                } else {
                    proof {
                        lemma_trunc_div_fits(p as int, q as int);
                    }
                    match p.checked_div(q) {
                        Some(v) => done_integer(v),
                        None => failure(ErrorKind::DivFail, "/", &self, &rhs),
                    }
                }
            },
            Pair::Floats(p, q) => {
                if bits_is_zero(q) {
                    Calc::Done(Json::Null)
                } else {
                    Calc::Float(FloatOp::Div, p, q)
                }
            },
            Pair::Invalid => failure(ErrorKind::InvalidNumber, "/", &self, &rhs),
            Pair::Other => failure(ErrorKind::DivFail, "/", &self, &rhs),
        }
    }

    /// The remainder of the division of the left value by the right one.
    pub fn rem(self, rhs: Json) -> (r: Calc)
        ensures
            r.meets(spec_rem(self@, rhs@)),
    {
        if self.is_null() || rhs.is_null() {
            return Calc::Done(Json::Null);
        }
        match operands(&self, &rhs) {
            Pair::Ints(p, q) => {
                if q == 0 {
                    Calc::Done(Json::Null)
                } else {
                    proof {
                        lemma_trunc_rem_fits(p as int, q as int);
                    }
                    match p.checked_rem(q) {
                        Some(v) => done_integer(v),
                        None => failure(ErrorKind::RemFail, "%", &self, &rhs),
                    }
                }
            },
            Pair::Floats(p, q) => {
                if bits_is_zero(q) {
                    Calc::Done(Json::Null)
                } else {
                    Calc::Float(FloatOp::Rem, p, q)
                }
            },
            Pair::Invalid => failure(ErrorKind::InvalidNumber, "%", &self, &rhs),
            Pair::Other => failure(ErrorKind::RemFail, "%", &self, &rhs),
        }
    }

    /// Negates a value.
    pub fn neg(self) -> (r: Json)
        ensures
            Calc::Done(r).meets(spec_neg(self@)),
    {
        match &self {
            Json::Null => Json::Null,
            Json::Integer(c) => match c.integer() {
                Some(n) => {
                    if n == i128::MIN {
                        Json::__Error(Error::make(ErrorKind::NegFail, "ops", "-integer"))
                    } else {
                        Json::Integer(Integral::new(-n))
                    }
                },
                None => Json::__Error(Error::make(ErrorKind::InvalidNumber, "ops", "-integer")),
            },
            Json::Float(c) => match c.float() {
                Some(b) => Json::Float(Floating::new(bits_negate(b))),
                None => Json::__Error(Error::make(ErrorKind::InvalidNumber, "ops", "-float")),
            },
            _ => {
                let mut m = "-".to_owned();
                push_str(&mut m, self.typename().as_str());
                Json::__Error(Error::make(ErrorKind::NegFail, "ops", m.as_str()))
            },
        }
    }
}

/// Twice `x`, the bit that leaves a 128-bit integer being dropped.
pub open spec fn doubled(x: int) -> int {
    if 2 * x > i128::MAX {
        2 * x - 0x1_0000_0000_0000_0000_0000_0000_0000_0000
    } else if 2 * x < i128::MIN {
        2 * x + 0x1_0000_0000_0000_0000_0000_0000_0000_0000
    } else {
        2 * x
    }
}

/// `x` shifted left by `n` bits: doubled `n` times.
pub open spec fn shifted_left(x: int, n: int) -> int
    decreases n,
{
    if n <= 0 {
        x
    } else {
        doubled(shifted_left(x, n - 1))
    }
}

/// `x` shifted right by `n` bits: halved `n` times, rounding down.
pub open spec fn shifted_right(x: int, n: int) -> int
    decreases n,
{
    if n <= 0 {
        x
    } else {
        shifted_right(x, n - 1) / 2
    }
}

/// The values of two integers, where both are integers that have one.
pub open spec fn two_integers(a: Value, b: Value) -> Option<(int, int)> {
    match (a, b) {
        (Value::Integer(x), Value::Integer(y)) => match (x.value(), y.value()) {
            (Some(p), Some(q)) => Some((p, q)),
            _ => None,
        },
        _ => None,
    }
}

/// The left value shifted left by the right one: both must be integers with
/// a value, the right one from 0 to 127.
pub open spec fn spec_shl(a: Value, b: Value) -> Outcome {
    match two_integers(a, b) {
        Some((p, q)) => if 0 <= q < 128 {
            Outcome::Value(Value::Integer(IntegralView::Data(shifted_left(p, q))))
        } else {
            Outcome::Fail(ErrorKind::ShlFail)
        },
        None => Outcome::Fail(ErrorKind::ShlFail),
    }
}

/// The left value shifted right by the right one: both must be integers
/// with a value, the right one from 0 to 127.
pub open spec fn spec_shr(a: Value, b: Value) -> Outcome {
    match two_integers(a, b) {
        Some((p, q)) => if 0 <= q < 128 {
            Outcome::Value(Value::Integer(IntegralView::Data(shifted_right(p, q))))
        } else {
            Outcome::Fail(ErrorKind::ShrFail)
        },
        None => Outcome::Fail(ErrorKind::ShrFail),
    }
}

/// A logical operation on two values.
#[derive(Clone, Copy, Debug, PartialEq, Eq, Structural)]
pub enum Logic {
    And,
    Or,
    Xor,
}

impl Logic {
    /// The operation on two integers, bit by bit.
    pub open spec fn on_bits(self, p: i128, q: i128) -> i128 {
        match self {
            Logic::And => p & q,
            Logic::Or => p | q,
            Logic::Xor => p ^ q,
        }
    }

    /// The operation on two booleans.
    pub open spec fn on_bools(self, s: bool, t: bool) -> bool {
        match self {
            Logic::And => s && t,
            Logic::Or => s || t,
            Logic::Xor => s != t,
        }
    }
}

/// A logical operation on two values. A failure on either side is the
/// result, the left one first. Two integers are combined bit by bit. Any
/// other two values are combined as the booleans that they count as. A
/// number without a value gives a failure.
pub open spec fn spec_logic(op: Logic, a: Value, b: Value) -> Outcome {
    if a is Error {
        Outcome::Value(a)
    } else if b is Error {
        Outcome::Value(b)
    } else if a is Integer && b is Integer {
        match two_integers(a, b) {
            Some((p, q)) => Outcome::Value(
                Value::Integer(IntegralView::Data(op.on_bits(p as i128, q as i128) as int)),
            ),
            None => Outcome::Fail(ErrorKind::InvalidNumber),
        }
    } else {
        match (spec_truth(a), spec_truth(b)) {
            (Some(s), Some(t)) => Outcome::Value(Value::Bool(op.on_bools(s, t))),
            _ => Outcome::Fail(ErrorKind::InvalidNumber),
        }
    }
}

/// The opposite of what a value counts as where a boolean is wanted; a
/// failure stays what it is.
pub open spec fn spec_not(a: Value) -> Outcome {
    if a is Error {
        Outcome::Value(a)
    } else {
        match spec_truth(a) {
            Some(t) => Outcome::Value(Value::Bool(!t)),
            None => Outcome::Fail(ErrorKind::InvalidNumber),
        }
    }
}

/// The index that a fragment of a path denotes in an array: a decimal
/// integer that the machine's signed index type holds.
pub open spec fn spec_index_text(key: Seq<char>) -> Option<int> {
    match fit_i128(signed_value(key, 10)) {
        Some(n) => if isize::MIN <= n <= isize::MAX {
            Some(n)
        } else {
            None
        },
        None => None,
    }
}

/// The value under `key` in a container: the member with that key of an
/// object, the item with that index of an array. Otherwise the kind of the
/// failure: no such member, no such index, no index at all, no container; a
/// failure value gives its own kind.
pub open spec fn child(v: Value, key: Seq<char>) -> Result<Value, ErrorKind> {
    match v {
        Value::Object(members) => match position(members, key) {
            Some(i) => Ok(members[i].value),
            None => Err(ErrorKind::PropertyNotFound),
        },
        Value::Array(items) => match spec_index_text(key) {
            Some(n) => match spec_offset(n, items.len() as int) {
                Some(i) => Ok(items[i]),
                None => Err(ErrorKind::IndexOutofBound),
            },
            None => Err(ErrorKind::InvalidIndex),
        },
        Value::Error(e) => Err(e.kind),
        _ => Err(ErrorKind::InvalidContainer),
    }
}

/// The item at `index` of an array, counted from the end where the index is
/// negative. Otherwise the kind of the failure.
pub open spec fn item(v: Value, index: int) -> Result<Value, ErrorKind> {
    match v {
        Value::Array(items) => match spec_offset(index, items.len() as int) {
            Some(i) => Ok(items[i]),
            None => Err(ErrorKind::IndexOutofBound),
        },
        Value::Error(e) => Err(e.kind),
        _ => Err(ErrorKind::NotAnArray),
    }
}

/// One end of a range of indexes.
#[derive(Clone, Copy, Debug, PartialEq, Eq, Structural)]
pub enum Bound {
    Included(isize),
    Excluded(isize),
    Unbounded,
}

/// The index at which a range starts.
pub open spec fn range_start(b: Bound, len: int) -> Option<int> {
    match b {
        Bound::Included(n) => spec_offset(n as int, len),
        Bound::Excluded(n) => spec_offset(n + 1, len),
        Bound::Unbounded => Some(0),
    }
}

/// The index before which a range ends.
pub open spec fn range_end(b: Bound, len: int) -> Option<int> {
    match b {
        Bound::Included(n) => spec_offset(n + 1, len),
        Bound::Excluded(n) => spec_offset(n as int, len),
        Bound::Unbounded => Some(len),
    }
}

/// The items of an array from one bound to the other, as an array. A bound
/// that denotes no index of the array, or a start after the end, gives a
/// failure; so does a value that is no array. A failure value stays.
pub open spec fn spec_range(v: Value, start: Bound, end: Bound) -> Outcome {
    match v {
        Value::Error(_) => Outcome::Value(v),
        Value::Array(items) => match (
            range_start(start, items.len() as int),
            range_end(end, items.len() as int),
        ) {
            (Some(s), Some(e)) => if s <= e {
                Outcome::Value(Value::Array(items.subrange(s, e)))
            } else {
                Outcome::Fail(ErrorKind::IndexOutofBound)
            },
            _ => Outcome::Fail(ErrorKind::IndexOutofBound),
        },
        _ => Outcome::Fail(ErrorKind::NotAnArray),
    }
}

fn offset_wide(off: i128, len: usize) -> (r: Option<usize>)
    ensures
        spec_offset(off as int, len as int) == match r {
            Some(i) => Some(i as int),
            None => None,
        },
{
    let at: i128 = if off < 0 {
        if off < -(len as i128) {
            return None;
        }
        off + len as i128
    } else {
        off
    };
    if 0 <= at && at < len as i128 {
        Some(at as usize)
    } else {
        None
    }
}

fn both_integers(a: &Json, b: &Json) -> (r: Option<(i128, i128)>)
    ensures
        two_integers(a@, b@) == match r {
            Some((p, q)) => Some((p as int, q as int)),
            None => None,
        },
{
    match (a, b) {
        (Json::Integer(x), Json::Integer(y)) => match (x.integer(), y.integer()) {
            (Some(p), Some(q)) => Some((p, q)),
            _ => None,
        },
        _ => None,
    }
}

/// Reads a fragment of a path as an index into an array.
pub fn index_of_text(key: &str) -> (r: Option<isize>)
    ensures
        spec_index_text(key@) == match r {
            Some(n) => Some(n as int),
            None => None,
        },
{
    match parse_decimal(&chars_of(key)) {
        Some(n) => {
            if isize::MIN as i128 <= n && n <= isize::MAX as i128 {
                Some(n as isize)
            } else {
                None
            }
        },
        None => None,
    }
}

impl Json {
    /// Shifts an integer left.
    pub fn shl(self, rhs: Json) -> (r: Json)
        ensures
            Calc::Done(r).meets(spec_shl(self@, rhs@)),
    {
        match both_integers(&self, &rhs) {
            Some((p, q)) => {
                if 0 <= q && q < 128 {
                    let mut x: i128 = p;
                    let mut j: i128 = 0;
                    while j < q
                        invariant
                            0 <= j <= q,
                            x == shifted_left(p as int, j as int),
                        decreases q - j,
                    {
                        x = if x > 0x3FFF_FFFF_FFFF_FFFF_FFFF_FFFF_FFFF_FFFFi128 {
                            (x - 0x4000_0000_0000_0000_0000_0000_0000_0000i128
                                - 0x4000_0000_0000_0000_0000_0000_0000_0000i128) * 2
                        } else if x < -0x4000_0000_0000_0000_0000_0000_0000_0000i128 {
                            (x + 0x4000_0000_0000_0000_0000_0000_0000_0000i128
                                + 0x4000_0000_0000_0000_0000_0000_0000_0000i128) * 2
                        } else {
                            x * 2
                        };
                        j = j + 1;
                    }
                    Json::Integer(Integral::new(x))
                } else {
                    Json::__Error(Error::make(ErrorKind::ShlFail, "ops", "shift out of range"))
                }
            },
            None => match failure(ErrorKind::ShlFail, "<<", &self, &rhs) {
                Calc::Done(v) => v,
                Calc::Float(_, _, _) => Json::Null,
            },
        }
    }

    /// Shifts an integer right, keeping its sign.
    pub fn shr(self, rhs: Json) -> (r: Json)
        ensures
            Calc::Done(r).meets(spec_shr(self@, rhs@)),
    {
        match both_integers(&self, &rhs) {
            Some((p, q)) => {
                if 0 <= q && q < 128 {
                    let mut x: i128 = p;
                    let mut j: i128 = 0;
                    while j < q
                        invariant
                            0 <= j <= q,
                            x == shifted_right(p as int, j as int),
                        decreases q - j,
                    {
                        proof {
                            let xi = x as int;
                            assert(i128::MIN <= xi / 2 <= i128::MAX) by (nonlinear_arith)
                                requires
                                    i128::MIN <= xi <= i128::MAX,
                            ;
                        }
                        x = match x.checked_div_euclid(2) {
                            Some(h) => h,
                            None => x,
                        };
                        j = j + 1;
                    }
                    Json::Integer(Integral::new(x))
                } else {
                    Json::__Error(Error::make(ErrorKind::ShrFail, "ops", "shift out of range"))
                }
            },
            None => match failure(ErrorKind::ShrFail, ">>", &self, &rhs) {
                Calc::Done(v) => v,
                Calc::Float(_, _, _) => Json::Null,
            },
        }
    }

    /// Combines two values by a logical operation.
    pub fn logic(self, op: Logic, rhs: Json) -> (r: Json)
        ensures
            Calc::Done(r).meets(spec_logic(op, self@, rhs@)),
    {
        if self.is_error() {
            return self;
        }
        if rhs.is_error() {
            return rhs;
        }
        match (&self, &rhs) {
            (Json::Integer(_), Json::Integer(_)) => match both_integers(&self, &rhs) {
                Some((p, q)) => {
                    let v: i128 = match op {
                        Logic::And => p & q,
                        Logic::Or => p | q,
                        Logic::Xor => p ^ q,
                    };
                    Json::Integer(Integral::new(v))
                },
                None => Json::__Error(Error::make(ErrorKind::InvalidNumber, "ops", "integer")),
            },
            _ => match (self.truth(), rhs.truth()) {
                (Some(s), Some(t)) => {
                    let v = match op {
                        Logic::And => s && t,
                        Logic::Or => s || t,
                        Logic::Xor => s != t,
                    };
                    Json::Bool(v)
                },
                _ => Json::__Error(Error::make(ErrorKind::InvalidNumber, "ops", "number")),
            },
        }
    }

    /// The conjunction of two values, bit by bit for two integers.
    pub fn bitand(self, rhs: Json) -> (r: Json)
        ensures
            Calc::Done(r).meets(spec_logic(Logic::And, self@, rhs@)),
    {
        self.logic(Logic::And, rhs)
    }

    /// The disjunction of two values, bit by bit for two integers.
    pub fn bitor(self, rhs: Json) -> (r: Json)
        ensures
            Calc::Done(r).meets(spec_logic(Logic::Or, self@, rhs@)),
    {
        self.logic(Logic::Or, rhs)
    }

    /// The exclusive disjunction of two values, bit by bit for two integers.
    pub fn bitxor(self, rhs: Json) -> (r: Json)
        ensures
            Calc::Done(r).meets(spec_logic(Logic::Xor, self@, rhs@)),
    {
        self.logic(Logic::Xor, rhs)
    }

    /// The opposite of what a value counts as where a boolean is wanted.
    pub fn not(self) -> (r: Json)
        ensures
            Calc::Done(r).meets(spec_not(self@)),
    {
        if self.is_error() {
            return self;
        }
        match self.truth() {
            Some(t) => Json::Bool(!t),
            None => Json::__Error(Error::make(ErrorKind::InvalidNumber, "ops", "number")),
        }
    }

    /// The item of an array at an index that may count from the end.
    pub fn index(&self, index: isize) -> (r: Result<&Json, Error>)
        ensures
            match item(self@, index as int) {
                Ok(v) => r is Ok && r->Ok_0@ == v,
                Err(k) => r is Err && r->Err_0@.kind == k,
            },
            self@ is Error ==> r is Err && r->Err_0@ == self@->Error_0,
    {
        match self {
            Json::Array(items) => {
                proof {
                    lemma_array_view(*items);
                }
                match normalized_offset(index, items.len()) {
                    Some(off) => Ok(&items[off]),
                    None => Err(Error::make(ErrorKind::IndexOutofBound, "ops", "index")),
                }
            },
            Json::__Error(e) => Err(e.clone()),
            _ => Err(Error::make(ErrorKind::NotAnArray, "ops", self.typename().as_str())),
        }
    }

    /// The value under a key: a member of an object whose members are
    /// sorted, or an item of an array, the key being read as an index.
    pub fn index_key(&self, key: &str) -> (r: Result<&Json, Error>)
        ensures
            (self@ is Object ==> sorted(self@->Object_0)) ==> match child(self@, key@) {
                Ok(v) => r is Ok && r->Ok_0@ == v,
                Err(k) => r is Err && r->Err_0@.kind == k,
            },
            self@ is Error ==> r is Err && r->Err_0@ == self@->Error_0,
    {
        match self {
            Json::Object(props) => {
                proof {
                    lemma_object_view(*props);
                }
                match search(props, key) {
                    Ok(off) => Ok(&props[off].value),
                    Err(_) => Err(Error::make(ErrorKind::PropertyNotFound, "ops", key)),
                }
            },
            Json::Array(items) => {
                proof {
                    lemma_array_view(*items);
                }
                match index_of_text(key) {
                    Some(n) => match normalized_offset(n, items.len()) {
                        Some(off) => Ok(&items[off]),
                        None => Err(Error::make(ErrorKind::IndexOutofBound, "ops", key)),
                    },
                    None => Err(Error::make(ErrorKind::InvalidIndex, "ops", key)),
                }
            },
            Json::__Error(e) => Err(e.clone()),
            _ => Err(Error::make(ErrorKind::InvalidContainer, "ops", self.typename().as_str())),
        }
    }

    /// The items of an array between two bounds, as a new array.
    pub fn range(&self, start: Bound, end: Bound) -> (r: Json)
        ensures
            Calc::Done(r).meets(spec_range(self@, start, end)),
    {
        match self {
            Json::__Error(_) => self.duplicate(),
            Json::Array(items) => {
                proof {
                    lemma_array_view(*items);
                }
                let n = items.len();
                let s = match start {
                    Bound::Included(k) => normalized_offset(k, n),
                    Bound::Excluded(k) => offset_wide(k as i128 + 1, n),
                    Bound::Unbounded => Some(0),
                };
                let e = match end {
                    Bound::Included(k) => offset_wide(k as i128 + 1, n),
                    Bound::Excluded(k) => normalized_offset(k, n),
                    Bound::Unbounded => Some(n),
                };
                match (s, e) {
                    (Some(s), Some(e)) => {
                        if s <= e {
                            let mut out: Vec<Json> = Vec::new();
                            let mut i: usize = s;
                            while i < e
                                invariant
                                    s <= i <= e <= n,
                                    n == items.len(),
                                    items_view(out@) == items_view(items@).subrange(
                                        s as int,
                                        i as int,
                                    ),
                                decreases e - i,
                            {
                                let ghost prev = items_view(out@);
                                let copy = items[i].duplicate();
                                out.push(copy);
                                assert(items_view(out@) =~= prev.push(
                                    items_view(items@)[i as int],
                                ));
                                i = i + 1;
                                assert(items_view(out@) =~= items_view(items@).subrange(
                                    s as int,
                                    i as int,
                                ));
                            }
                            proof {
                                lemma_array_view(out);
                            }
                            Json::Array(out)
                        } else {
                            Json::__Error(Error::make(ErrorKind::IndexOutofBound, "ops", "range"))
                        }
                    },
                    _ => Json::__Error(Error::make(ErrorKind::IndexOutofBound, "ops", "range")),
                }
            },
            _ => Json::__Error(Error::make(ErrorKind::NotAnArray, "ops", self.typename().as_str())),
        }
    }
}

} // verus!
