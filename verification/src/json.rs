//! The JSON value and its mathematical model.

use crate::error::{Error, ErrorKind, ErrorView};
use crate::float::{
    bits_equal,
    bits_order,
    bits_to_int,
    exact_int,
    float_equal,
    float_order,
    int_to_bits,
    spec_int_to_bits,
};
use crate::num::{Floating, FloatingView, Integral, IntegralView, Reading};
use crate::order::Order;
use crate::property::{upsert, upsert_object_key, Property};
use crate::text::{lemma_seq_order_trans, push_chars, seq_order, str_order};
use vstd::prelude::*;

verus! {

/// A JSON value. Arrays keep the order in which their items were given;
/// objects keep their members sorted by key, each key once.
///
/// The last three variants never come out of a parse: one carries a failure
/// through an operator that must return a value, the other two lie below and
/// above every other value in the total order.
#[derive(Debug)]
pub enum Json {
    Null,
    Bool(bool),
    Integer(Integral),
    Float(Floating),
    String(String),
    Array(Vec<Json>),
    Object(Vec<Property>),
    __Error(Error),
    __Minbound,
    __Maxbound,
}

/// A JSON value as plain data.
pub enum Value {
    Null,
    Bool(bool),
    Integer(IntegralView),
    Float(FloatingView),
    String(Seq<char>),
    Array(Seq<Value>),
    Object(Seq<Member>),
    Error(ErrorView),
    Minbound,
    Maxbound,
}

/// One member of an object as plain data.
pub struct Member {
    pub key: Seq<char>,
    pub value: Value,
}

/// The keys grow strictly from each member to the next.
pub open spec fn sorted(members: Seq<Member>) -> bool {
    forall|i: int, j: int|
        0 <= i < j < members.len() ==> seq_order(
            #[trigger] members[i].key,
            #[trigger] members[j].key,
        ) == Order::Less
}

impl Value {
    /// Every object in the value, at any depth, has its members sorted by
    /// key, with no key twice.
    pub open spec fn wf(self) -> bool
        decreases self,
    {
        match self {
            Value::Array(items) => forall|i: int|
                0 <= i < items.len() ==> (#[trigger] items[i]).wf(),
            Value::Object(members) => sorted(members) && forall|i: int|
                0 <= i < members.len() ==> (#[trigger] members[i]).value.wf(),
            _ => true,
        }
    }

    /// The value is made of what a text can denote: null, booleans, numbers,
    /// strings, arrays and objects, at every depth; and every computed
    /// integer in it fits 128 bits.
    pub open spec fn plain(self) -> bool
        decreases self,
    {
        match self {
            Value::Integer(IntegralView::Data(n)) => i128::MIN <= n <= i128::MAX,
            Value::Array(items) => forall|i: int|
                0 <= i < items.len() ==> (#[trigger] items[i]).plain(),
            Value::Object(members) => forall|i: int|
                0 <= i < members.len() ==> (#[trigger] members[i]).value.plain(),
            Value::Error(_) => false,
            Value::Minbound => false,
            Value::Maxbound => false,
            _ => true,
        }
    }

    /// Every number in the value, at any depth, has been computed.
    pub open spec fn computed(self) -> bool
        decreases self,
    {
        match self {
            Value::Integer(c) => c is Data,
            Value::Float(c) => c is Data,
            Value::Array(items) => forall|i: int|
                0 <= i < items.len() ==> (#[trigger] items[i]).computed(),
            Value::Object(members) => forall|i: int|
                0 <= i < members.len() ==> (#[trigger] members[i]).value.computed(),
            _ => true,
        }
    }
}

impl View for Json {
    type V = Value;

    open spec fn view(&self) -> Value
        decreases self,
    {
        match self {
            Json::Null => Value::Null,
            Json::Bool(b) => Value::Bool(*b),
            Json::Integer(c) => Value::Integer(c@),
            Json::Float(c) => Value::Float(c@),
            Json::String(s) => Value::String(s@),
            Json::Array(items) => Value::Array(
                Seq::new(
                    items.len() as nat,
                    |i: int|
                        if 0 <= i < items.len() {
                            items[i].view()
                        } else {
                            Value::Null
                        },
                ),
            ),
            Json::Object(props) => Value::Object(
                Seq::new(
                    props.len() as nat,
                    |i: int|
                        if 0 <= i < props.len() {
                            Member { key: props[i].key@, value: props[i].value.view() }
                        } else {
                            Member { key: Seq::empty(), value: Value::Null }
                        },
                ),
            ),
            Json::__Error(e) => Value::Error(e@),
            Json::__Minbound => Value::Minbound,
            Json::__Maxbound => Value::Maxbound,
        }
    }
}

/// The models of the items of an array.
pub open spec fn items_view(items: Seq<Json>) -> Seq<Value> {
    Seq::new(items.len(), |i: int| items[i]@)
}

/// The models of the members of an object.
pub open spec fn members_view(props: Seq<Property>) -> Seq<Member> {
    Seq::new(props.len(), |i: int| props[i]@)
}

/// The model of an array is the sequence of its items' models.
pub proof fn lemma_array_view(items: Vec<Json>)
    ensures
        Json::Array(items)@ == Value::Array(items_view(items@)),
{
    assert(Json::Array(items)@->Array_0 =~= items_view(items@));
}

/// The model of an object is the sequence of its members' models.
pub proof fn lemma_object_view(props: Vec<Property>)
    ensures
        Json::Object(props)@ == Value::Object(members_view(props@)),
{
    assert(Json::Object(props)@->Object_0 =~= members_view(props@));
}

impl Value {
    /// Place of the value's type in the order of types: the lower bound,
    /// null, booleans, numbers, strings, arrays, objects, failures, the upper
    /// bound.
    pub open spec fn rank(self) -> int {
        match self {
            Value::Minbound => 0,
            Value::Null => 1,
            Value::Bool(_) => 2,
            Value::Integer(_) => 3,
            Value::Float(_) => 3,
            Value::String(_) => 4,
            Value::Array(_) => 5,
            Value::Object(_) => 6,
            Value::Error(_) => 7,
            Value::Maxbound => 8,
        }
    }

    /// The bits by which a number takes part in a comparison with a float: a
    /// float's own, an integer's after promotion. `None` for a number without
    /// a value and for what is no number.
    pub open spec fn float_bits(self) -> Option<int> {
        match self {
            Value::Integer(c) => match c.value() {
                Some(v) => Some(spec_int_to_bits(v)),
                None => None,
            },
            Value::Float(c) => match c.value() {
                Reading::Bits(b) => Some(b),
                Reading::Missing => None,
            },
            _ => None,
        }
    }
}

/// Order of two numbers. Two integers compare as integers. With a float on
/// either side both compare as floats, an integer being promoted first.
/// `None` where a number has no value.
pub open spec fn number_order(a: Value, b: Value) -> Option<Order> {
    match (a, b) {
        (Value::Integer(x), Value::Integer(y)) => match (x.value(), y.value()) {
            (Some(p), Some(q)) => Some(Order::of_ints(p, q)),
            _ => None,
        },
        _ => match (a.float_bits(), b.float_bits()) {
            (Some(p), Some(q)) => Some(float_order(p, q)),
            _ => None,
        },
    }
}

/// The total order of values. Values of different types go by the rank of
/// their types. Within a type: false before true; numbers by
/// [`number_order`]; strings by code point; arrays item by item and objects
/// member by member (key, then value), the shorter first where one is a
/// prefix of the other. `None` where the comparison has to look at a number
/// that has no value.
pub open spec fn order(a: Value, b: Value) -> Option<Order>
    decreases a, 0int,
{
    if a.rank() != b.rank() {
        Some(Order::of_ints(a.rank(), b.rank()))
    } else {
        match (a, b) {
            (Value::Bool(x), Value::Bool(y)) => Some(
                if x == y {
                    Order::Equal
                } else if !x {
                    Order::Less
                } else {
                    Order::Greater
                },
            ),
            (Value::Integer(_), _) => number_order(a, b),
            (Value::Float(_), _) => number_order(a, b),
            (Value::String(x), Value::String(y)) => Some(seq_order(x, y)),
            (Value::Array(x), Value::Array(y)) => items_order(x, y, 0),
            (Value::Object(x), Value::Object(y)) => members_order(x, y, 0),
            _ => Some(Order::Equal),
        }
    }
}

/// Order of two arrays from index `i` on, the items before being equal.
pub open spec fn items_order(a: Seq<Value>, b: Seq<Value>, i: int) -> Option<Order>
    decreases a, a.len() - i,
{
    if i < 0 || i >= a.len() {
        Some(
            if a.len() == b.len() {
                Order::Equal
            } else {
                Order::Less
            },
        )
    } else if i >= b.len() {
        Some(Order::Greater)
    } else {
        match order(a[i], b[i]) {
            Some(Order::Equal) => items_order(a, b, i + 1),
            other => other,
        }
    }
}

/// Order of two objects from member `i` on, the members before being equal.
pub open spec fn members_order(a: Seq<Member>, b: Seq<Member>, i: int) -> Option<Order>
    decreases a, a.len() - i,
{
    if i < 0 || i >= a.len() {
        Some(
            if a.len() == b.len() {
                Order::Equal
            } else {
                Order::Less
            },
        )
    } else if i >= b.len() {
        Some(Order::Greater)
    } else {
        match seq_order(a[i].key, b[i].key) {
            Order::Equal => match order(a[i].value, b[i].value) {
                Some(Order::Equal) => members_order(a, b, i + 1),
                other => other,
            },
            other => Some(other),
        }
    }
}

/// Equality of values. Null equals null, a bound equals itself, booleans and
/// strings are equal when they are the same, two integers when both have the
/// same value, two floats when both have values that are equal as floats, an
/// integer and a float when the float is exactly that integer. Arrays and
/// objects are equal when they have the same length and are equal item by
/// item, member by member. Everything else is unequal: values of different
/// types, a number without a value, a failure.
pub open spec fn equal(a: Value, b: Value) -> bool
    decreases a,
{
    match (a, b) {
        (Value::Null, Value::Null) => true,
        (Value::Bool(x), Value::Bool(y)) => x == y,
        (Value::Integer(x), Value::Integer(y)) => x.value() is Some && x.value() == y.value(),
        (Value::Integer(x), Value::Float(y)) => x.value() is Some && y.value() is Bits && exact_int(
            y.value()->Bits_0,
        ) == x.value(),
        (Value::Float(x), Value::Integer(y)) => y.value() is Some && x.value() is Bits && exact_int(
            x.value()->Bits_0,
        ) == y.value(),
        (Value::Float(x), Value::Float(y)) => x.value() is Bits && y.value() is Bits && float_equal(
            x.value()->Bits_0,
            y.value()->Bits_0,
        ),
        (Value::String(x), Value::String(y)) => x == y,
        (Value::Array(x), Value::Array(y)) => x.len() == y.len() && forall|i: int|
            0 <= i < x.len() ==> equal(#[trigger] x[i], y[i]),
        (Value::Object(x), Value::Object(y)) => x.len() == y.len() && forall|i: int|
            0 <= i < x.len() ==> (#[trigger] x[i]).key == y[i].key && equal(x[i].value, y[i].value),
        (Value::Minbound, Value::Minbound) => true,
        (Value::Maxbound, Value::Maxbound) => true,
        _ => false,
    }
}

impl Json {
    /// The value that sorts before every other.
    pub fn minbound() -> (r: Json)
        ensures
            r@ == Value::Minbound,
    {
        Json::__Minbound
    }

    /// The value that sorts after every other.
    pub fn maxbound() -> (r: Json)
        ensures
            r@ == Value::Maxbound,
    {
        Json::__Maxbound
    }

    fn rank(&self) -> (r: u8)
        ensures
            r == self@.rank(),
    {
        match self {
            Json::__Minbound => 0,
            Json::Null => 1,
            Json::Bool(_) => 2,
            Json::Integer(_) => 3,
            Json::Float(_) => 3,
            Json::String(_) => 4,
            Json::Array(_) => 5,
            Json::Object(_) => 6,
            Json::__Error(_) => 7,
            Json::__Maxbound => 8,
        }
    }

    fn float_bits(&self) -> (r: Option<u64>)
        ensures
            self@.float_bits() == match r {
                Some(b) => Some(b as int),
                None => None,
            },
    {
        match self {
            Json::Integer(c) => match c.integer() {
                Some(v) => Some(int_to_bits(v)),
                None => None,
            },
            Json::Float(c) => c.float(),
            _ => None,
        }
    }

    fn number_order(&self, other: &Json) -> (r: Option<Order>)
        ensures
            r == number_order(self@, other@),
    {
        match (self, other) {
            (Json::Integer(x), Json::Integer(y)) => match (x.integer(), y.integer()) {
                (Some(p), Some(q)) => Some(
                    if p < q {
                        Order::Less
                    } else if p == q {
                        Order::Equal
                    } else {
                        Order::Greater
                    },
                ),
                _ => None,
            },
            _ => match (self.float_bits(), other.float_bits()) {
                (Some(p), Some(q)) => Some(bits_order(p, q)),
                _ => None,
            },
        }
    }

    /// Compares two values in the total order of values.
    #[verifier::loop_isolation(false)]
    pub fn compare(&self, other: &Json) -> (r: Option<Order>)
        ensures
            r == order(self@, other@),
        decreases self,
    {
        let ra = self.rank();
        let rb = other.rank();
        if ra != rb {
            return Some(
                if ra < rb {
                    Order::Less
                } else {
                    Order::Greater
                },
            );
        }
        match (self, other) {
            (Json::Bool(x), Json::Bool(y)) => Some(
                if *x == *y {
                    Order::Equal
                } else if !*x {
                    Order::Less
                } else {
                    Order::Greater
                },
            ),
            (Json::Integer(_), _) => self.number_order(other),
            (Json::Float(_), _) => self.number_order(other),
            (Json::String(x), Json::String(y)) => Some(str_order(x.as_str(), y.as_str())),
            (Json::Array(x), Json::Array(y)) => {
                let ghost xs = self@->Array_0;
                let ghost ys = other@->Array_0;
                let mut i: usize = 0;
                while i < x.len()
                    invariant
                        i <= x.len(),
                        self is Array,
                        self->Array_0 == *x,
                        xs == self@->Array_0,
                        ys == other@->Array_0,
                        xs.len() == x.len(),
                        ys.len() == y.len(),
                        forall|k: int| 0 <= k < x.len() ==> xs[k] == x[k]@,
                        forall|k: int| 0 <= k < y.len() ==> ys[k] == y[k]@,
                        items_order(xs, ys, 0) == items_order(xs, ys, i as int),
                    decreases x.len() - i,
                {
                    if i >= y.len() {
                        return Some(Order::Greater);
                    }
                    let step = x[i].compare(&y[i]);
                    match step {
                        Some(Order::Equal) => {},
                        _ => {
                            return step;
                        },
                    }
                    i = i + 1;
                }
                Some(
                    if x.len() == y.len() {
                        Order::Equal
                    } else {
                        Order::Less
                    },
                )
            },
            (Json::Object(x), Json::Object(y)) => {
                let ghost xs = self@->Object_0;
                let ghost ys = other@->Object_0;
                let mut i: usize = 0;
                while i < x.len()
                    invariant
                        i <= x.len(),
                        self is Object,
                        self->Object_0 == *x,
                        xs == self@->Object_0,
                        ys == other@->Object_0,
                        xs.len() == x.len(),
                        ys.len() == y.len(),
                        forall|k: int| 0 <= k < x.len() ==> xs[k] == x[k]@,
                        forall|k: int| 0 <= k < y.len() ==> ys[k] == y[k]@,
                        members_order(xs, ys, 0) == members_order(xs, ys, i as int),
                    decreases x.len() - i,
                {
                    if i >= y.len() {
                        return Some(Order::Greater);
                    }
                    let by_key = str_order(x[i].key.as_str(), y[i].key.as_str());
                    match by_key {
                        Order::Equal => {},
                        _ => {
                            return Some(by_key);
                        },
                    }
                    let step = x[i].value.compare(&y[i].value);
                    match step {
                        Some(Order::Equal) => {},
                        _ => {
                            return step;
                        },
                    }
                    i = i + 1;
                }
                Some(
                    if x.len() == y.len() {
                        Order::Equal
                    } else {
                        Order::Less
                    },
                )
            },
            _ => Some(Order::Equal),
        }
    }

    /// Tells whether two values are equal.
    #[verifier::loop_isolation(false)]
    pub fn equals(&self, other: &Json) -> (r: bool)
        ensures
            r == equal(self@, other@),
        decreases self,
    {
        match (self, other) {
            (Json::Null, Json::Null) => true,
            (Json::Bool(x), Json::Bool(y)) => *x == *y,
            (Json::Integer(x), Json::Integer(y)) => match (x.integer(), y.integer()) {
                (Some(p), Some(q)) => p == q,
                _ => false,
            },
            (Json::Integer(x), Json::Float(y)) => match (x.integer(), y.float()) {
                (Some(p), Some(q)) => match bits_to_int(q) {
                    Some(n) => n == p,
                    None => false,
                },
                _ => false,
            },
            (Json::Float(x), Json::Integer(y)) => match (x.float(), y.integer()) {
                (Some(p), Some(q)) => match bits_to_int(p) {
                    Some(n) => n == q,
                    None => false,
                },
                _ => false,
            },
            (Json::Float(x), Json::Float(y)) => match (x.float(), y.float()) {
                (Some(p), Some(q)) => bits_equal(p, q),
                _ => false,
            },
            (Json::String(x), Json::String(y)) => *x == *y,
            (Json::Array(x), Json::Array(y)) => {
                if x.len() != y.len() {
                    return false;
                }
                let ghost xs = self@->Array_0;
                let ghost ys = other@->Array_0;
                let mut i: usize = 0;
                while i < x.len()
                    invariant
                        i <= x.len(),
                        x.len() == y.len(),
                        self is Array,
                        self->Array_0 == *x,
                        xs == self@->Array_0,
                        ys == other@->Array_0,
                        xs.len() == x.len(),
                        ys.len() == y.len(),
                        forall|k: int| 0 <= k < x.len() ==> xs[k] == x[k]@,
                        forall|k: int| 0 <= k < y.len() ==> ys[k] == y[k]@,
                        forall|k: int| 0 <= k < i ==> equal(#[trigger] xs[k], ys[k]),
                    decreases x.len() - i,
                {
                    if !x[i].equals(&y[i]) {
                        assert(!equal(xs[i as int], ys[i as int]));
                        return false;
                    }
                    i = i + 1;
                }
                true
            },
            (Json::Object(x), Json::Object(y)) => {
                if x.len() != y.len() {
                    return false;
                }
                let ghost xs = self@->Object_0;
                let ghost ys = other@->Object_0;
                let mut i: usize = 0;
                while i < x.len()
                    invariant
                        i <= x.len(),
                        x.len() == y.len(),
                        self is Object,
                        self->Object_0 == *x,
                        xs == self@->Object_0,
                        ys == other@->Object_0,
                        xs.len() == x.len(),
                        ys.len() == y.len(),
                        forall|k: int| 0 <= k < x.len() ==> xs[k] == x[k]@,
                        forall|k: int| 0 <= k < y.len() ==> ys[k] == y[k]@,
                        forall|k: int|
                            0 <= k < i ==> (#[trigger] xs[k]).key == ys[k].key && equal(
                                xs[k].value,
                                ys[k].value,
                            ),
                    decreases x.len() - i,
                {
                    if !(x[i].key == y[i].key) || !x[i].value.equals(&y[i].value) {
                        assert(!(xs[i as int].key == ys[i as int].key && equal(
                            xs[i as int].value,
                            ys[i as int].value,
                        )));
                        return false;
                    }
                    i = i + 1;
                }
                true
            },
            (Json::__Minbound, Json::__Minbound) => true,
            (Json::__Maxbound, Json::__Maxbound) => true,
            _ => false,
        }
    }
}

/// The first `n` items of `orig` after the walk that computes numbers: each
/// item is computed in turn until one fails; what comes after the failure
/// stays as it was. The flag tells whether all `n` succeeded.
pub open spec fn walk_items(orig: Seq<Value>, n: int) -> (Seq<Value>, bool)
    decreases orig, n,
{
    if n <= 0 || n > orig.len() {
        (orig, true)
    } else {
        let (done, ok) = walk_items(orig, n - 1);
        if !ok {
            (done, false)
        } else {
            let (w, ok2) = walk(orig[n - 1]);
            (done.update(n - 1, w), ok2)
        }
    }
}

/// As [`walk_items`], over the values of the members of an object.
pub open spec fn walk_members(orig: Seq<Member>, n: int) -> (Seq<Member>, bool)
    decreases orig, n,
{
    if n <= 0 || n > orig.len() {
        (orig, true)
    } else {
        let (done, ok) = walk_members(orig, n - 1);
        if !ok {
            (done, false)
        } else {
            let (w, ok2) = walk(orig[n - 1].value);
            (done.update(n - 1, Member { key: orig[n - 1].key, value: w }), ok2)
        }
    }
}

/// What computing every number of a value leaves, and whether it succeeded.
/// Numbers are visited in the order of the text; the first one without a
/// value stops the walk, so that numbers before it are computed and numbers
/// after it are not.
pub open spec fn walk(v: Value) -> (Value, bool)
    decreases v, 0int,
{
    match v {
        Value::Integer(c) => (Value::Integer(c.computed()), c.value() is Some),
        Value::Float(c) => (Value::Float(c.computed()), c.value() is Bits),
        Value::Array(items) => {
            let (done, ok) = walk_items(items, items.len() as int);
            (Value::Array(done), ok)
        },
        Value::Object(members) => {
            let (done, ok) = walk_members(members, members.len() as int);
            (Value::Object(done), ok)
        },
        _ => (v, true),
    }
}

/// The literals of the deferred floats of the items `orig[..n]`.
pub open spec fn literals_of_items(orig: Seq<Value>, n: int) -> Seq<Seq<char>>
    decreases orig, n,
{
    if n <= 0 || n > orig.len() {
        Seq::empty()
    } else {
        literals_of_items(orig, n - 1) + literals(orig[n - 1])
    }
}

/// The literals of the deferred floats of the members `orig[..n]`.
pub open spec fn literals_of_members(orig: Seq<Member>, n: int) -> Seq<Seq<char>>
    decreases orig, n,
{
    if n <= 0 || n > orig.len() {
        Seq::empty()
    } else {
        literals_of_members(orig, n - 1) + literals(orig[n - 1].value)
    }
}

/// The literals of the deferred floats of a value, in the order of the text.
pub open spec fn literals(v: Value) -> Seq<Seq<char>>
    decreases v, 0int,
{
    match v {
        Value::Float(FloatingView::Text(t, _)) => seq![t],
        Value::Array(items) => literals_of_items(items, items.len() as int),
        Value::Object(members) => literals_of_members(members, members.len() as int),
        _ => Seq::empty(),
    }
}

/// The items `orig[..n]` with readings handed out in order, and the readings
/// that are left.
pub open spec fn fill_items(orig: Seq<Value>, n: int, rs: Seq<Reading>) -> (
    Seq<Value>,
    Seq<Reading>,
)
    decreases orig, n,
{
    if n <= 0 || n > orig.len() {
        (orig, rs)
    } else {
        let (done, rest) = fill_items(orig, n - 1, rs);
        let (w, rest2) = fill(orig[n - 1], rest);
        (done.update(n - 1, w), rest2)
    }
}

/// As [`fill_items`], over the values of the members of an object.
pub open spec fn fill_members(orig: Seq<Member>, n: int, rs: Seq<Reading>) -> (
    Seq<Member>,
    Seq<Reading>,
)
    decreases orig, n,
{
    if n <= 0 || n > orig.len() {
        (orig, rs)
    } else {
        let (done, rest) = fill_members(orig, n - 1, rs);
        let (w, rest2) = fill(orig[n - 1].value, rest);
        (done.update(n - 1, Member { key: orig[n - 1].key, value: w }), rest2)
    }
}

/// The value with the readings `rs` given to its deferred floats in the
/// order of the text, and the readings that are left. A deferred float for
/// which no reading is left keeps the one it has.
pub open spec fn fill(v: Value, rs: Seq<Reading>) -> (Value, Seq<Reading>)
    decreases v, 0int,
{
    match v {
        Value::Float(FloatingView::Text(t, old)) => if rs.len() > 0 {
            (Value::Float(FloatingView::Text(t, rs[0])), rs.drop_first())
        } else {
            (v, rs)
        },
        Value::Array(items) => {
            let (done, rest) = fill_items(items, items.len() as int, rs);
            (Value::Array(done), rest)
        },
        Value::Object(members) => {
            let (done, rest) = fill_members(members, members.len() as int, rs);
            (Value::Object(done), rest)
        },
        _ => (v, rs),
    }
}

/// The readings that a vector of optional bits stands for.
pub open spec fn readings_view(rs: Seq<Option<u64>>) -> Seq<Reading> {
    Seq::new(rs.len(), |i: int| crate::num::bits_view(rs[i]))
}

/// The texts of a vector of strings.
pub open spec fn texts_view(ts: Seq<String>) -> Seq<Seq<char>> {
    Seq::new(ts.len(), |i: int| ts[i]@)
}

/// The name of the type of a value.
pub open spec fn spec_typename(v: Value) -> Seq<char> {
    match v {
        Value::Null => "null"@,
        Value::Bool(_) => "bool"@,
        Value::Integer(_) => "integer"@,
        Value::Float(_) => "float"@,
        Value::String(_) => "string"@,
        Value::Array(_) => "array"@,
        Value::Object(_) => "object"@,
        Value::Error(_) => "error"@,
        Value::Minbound => "minbound"@,
        Value::Maxbound => "maxbound"@,
    }
}

/// What a value counts as where a boolean is wanted: null and failures are
/// false, the two bounds true, a boolean itself, a number whether it is not
/// zero (so that NaN is true), a string, an array and an object whether they
/// are not empty. `None` for a number without a value.
pub open spec fn spec_truth(v: Value) -> Option<bool> {
    match v {
        Value::Null => Some(false),
        Value::Bool(b) => Some(b),
        Value::Integer(c) => match c.value() {
            Some(n) => Some(n != 0),
            None => None,
        },
        Value::Float(c) => match c.value() {
            Reading::Bits(b) => Some(!crate::float::is_zero(b)),
            Reading::Missing => None,
        },
        Value::String(s) => Some(s.len() > 0),
        Value::Array(a) => Some(a.len() > 0),
        Value::Object(o) => Some(o.len() > 0),
        Value::Error(_) => Some(false),
        Value::Minbound => Some(true),
        Value::Maxbound => Some(true),
    }
}

impl Clone for Json {
    fn clone(&self) -> (r: Json)
        ensures
            r@ == self@,
    {
        self.duplicate()
    }
}

impl Clone for Property {
    fn clone(&self) -> (r: Property)
        ensures
            r@ == self@,
    {
        Property { key: self.key.clone(), value: self.value.duplicate() }
    }
}

impl Json {
    /// A copy of the value, with everything below it.
    #[verifier::loop_isolation(false)]
    pub fn duplicate(&self) -> (r: Json)
        ensures
            r@ == self@,
        decreases self,
    {
        match self {
            Json::Null => Json::Null,
            Json::Bool(b) => Json::Bool(*b),
            Json::Integer(c) => Json::Integer(c.clone()),
            Json::Float(c) => Json::Float(c.clone()),
            Json::String(s) => Json::String(s.clone()),
            Json::Array(items) => {
                let mut out: Vec<Json> = Vec::new();
                let mut i: usize = 0;
                while i < items.len()
                    invariant
                        i <= items.len(),
                        out.len() == i,
                        forall|k: int| 0 <= k < i ==> out[k]@ == items[k]@,
                    decreases items.len() - i,
                {
                    out.push(items[i].duplicate());
                    i = i + 1;
                }
                proof {
                    lemma_array_view(out);
                    lemma_array_view(*items);
                    assert(items_view(out@) =~= items_view(items@));
                }
                Json::Array(out)
            },
            Json::Object(props) => {
                let mut out: Vec<Property> = Vec::new();
                let mut i: usize = 0;
                while i < props.len()
                    invariant
                        i <= props.len(),
                        out.len() == i,
                        forall|k: int| 0 <= k < i ==> out[k]@ == props[k]@,
                    decreases props.len() - i,
                {
                    let p = Property {
                        key: props[i].key.clone(),
                        value: props[i].value.duplicate(),
                    };
                    out.push(p);
                    i = i + 1;
                }
                proof {
                    lemma_object_view(out);
                    lemma_object_view(*props);
                    assert(members_view(out@) =~= members_view(props@));
                }
                Json::Object(out)
            },
            Json::__Error(e) => Json::__Error(e.clone()),
            Json::__Minbound => Json::__Minbound,
            Json::__Maxbound => Json::__Maxbound,
        }
    }

    /// A computed float, given by its bits.
    pub fn from_float_bits(bits: u64) -> (r: Json)
        ensures
            r@ == Value::Float(FloatingView::Data(bits as int)),
    {
        Json::Float(Floating::new(bits))
    }

    /// A string.
    pub fn from_text(text: &str) -> (r: Json)
        ensures
            r@ == Value::String(text@),
    {
        Json::String(text.to_owned())
    }

    /// The name of the value's type.
    pub fn typename(&self) -> (r: String)
        ensures
            r@ == spec_typename(self@),
    {
        match self {
            Json::Null => "null".to_owned(),
            Json::Bool(_) => "bool".to_owned(),
            Json::Integer(_) => "integer".to_owned(),
            Json::Float(_) => "float".to_owned(),
            Json::String(_) => "string".to_owned(),
            Json::Array(_) => "array".to_owned(),
            Json::Object(_) => "object".to_owned(),
            Json::__Error(_) => "error".to_owned(),
            Json::__Minbound => "minbound".to_owned(),
            Json::__Maxbound => "maxbound".to_owned(),
        }
    }

    pub fn is_null(&self) -> (r: bool)
        ensures
            r == (self@ is Null),
    {
        match self {
            Json::Null => true,
            _ => false,
        }
    }

    /// The boolean, where the value is one.
    pub fn to_bool(&self) -> (r: Option<bool>)
        ensures
            r == match self@ {
                Value::Bool(b) => Some(b),
                _ => None,
            },
    {
        match self {
            Json::Bool(b) => Some(*b),
            _ => None,
        }
    }

    /// The integer, where the value is an integer that has a value.
    pub fn to_integer(&self) -> (r: Option<i128>)
        ensures
            match r {
                Some(n) => self@ is Integer && self@->Integer_0.value() == Some(n as int),
                None => !(self@ is Integer) || self@->Integer_0.value() is None,
            },
    {
        match self {
            Json::Integer(c) => c.integer(),
            _ => None,
        }
    }

    /// The bits of the float, where the value is a float that has a value,
    /// or an integer of at most 2^53 in magnitude.
    pub fn to_float(&self) -> (r: Option<u64>)
        ensures
            match self@ {
                Value::Float(c) => crate::num::bits_view(r) == c.value(),
                Value::Integer(c) => match r {
                    Some(b) => c.value() is Some && -crate::num::EXACT_FLOAT_LIMIT <= c.value()->0
                        <= crate::num::EXACT_FLOAT_LIMIT && b == spec_int_to_bits(c.value()->0),
                    None => c.value() is None || c.value()->0 < -crate::num::EXACT_FLOAT_LIMIT
                        || c.value()->0 > crate::num::EXACT_FLOAT_LIMIT,
                },
                _ => r is None,
            },
    {
        match self {
            Json::Float(c) => c.float(),
            Json::Integer(c) => c.float(),
            _ => None,
        }
    }

    /// The characters, where the value is a string.
    pub fn as_str(&self) -> (r: Option<&str>)
        ensures
            match self@ {
                Value::String(s) => r is Some && r->0@ == s,
                _ => r is None,
            },
    {
        match self {
            Json::String(s) => Some(s.as_str()),
            _ => None,
        }
    }

    /// A copy of the items, where the value is an array.
    pub fn to_array(&self) -> (r: Option<Vec<Json>>)
        ensures
            match self@ {
                Value::Array(items) => r is Some && items_view(r->0@) == items,
                _ => r is None,
            },
    {
        match self {
            Json::Array(_) => match self.duplicate() {
                Json::Array(items) => {
                    proof {
                        lemma_array_view(items);
                    }
                    Some(items)
                },
                _ => None,
            },
            _ => None,
        }
    }

    /// A copy of the members, where the value is an object.
    pub fn to_object(&self) -> (r: Option<Vec<Property>>)
        ensures
            match self@ {
                Value::Object(members) => r is Some && members_view(r->0@) == members,
                _ => r is None,
            },
    {
        match self {
            Json::Object(_) => match self.duplicate() {
                Json::Object(props) => {
                    proof {
                        lemma_object_view(props);
                    }
                    Some(props)
                },
                _ => None,
            },
            _ => None,
        }
    }

    pub fn is_error(&self) -> (r: bool)
        ensures
            r == (self@ is Error),
    {
        match self {
            Json::__Error(_) => true,
            _ => false,
        }
    }

    /// A copy of the failure, where the value carries one.
    pub fn to_error(&self) -> (r: Option<Error>)
        ensures
            match self@ {
                Value::Error(e) => r is Some && r->0@ == e,
                _ => r is None,
            },
    {
        match self {
            Json::__Error(e) => Some(e.clone()),
            _ => None,
        }
    }

    /// The value itself, or the failure that it carries.
    pub fn to_result(&self) -> (r: Result<&Json, Error>)
        ensures
            match self@ {
                Value::Error(e) => r is Err && r->Err_0@ == e,
                _ => r is Ok && r->Ok_0@ == self@,
            },
    {
        match self {
            Json::__Error(e) => Err(e.clone()),
            _ => Ok(self),
        }
    }

    /// The integer, or why there is none: the value is no integer, or its
    /// literal denotes none.
    pub fn to_integer_result(&self) -> (r: Result<i128, Error>)
        ensures
            match r {
                Ok(n) => self@ is Integer && self@->Integer_0.value() == Some(n as int),
                Err(e) => if self@ is Integer {
                    self@->Integer_0.value() is None && e@.kind == ErrorKind::InvalidNumber
                } else {
                    e@.kind == ErrorKind::InvalidType
                },
            },
    {
        match self {
            Json::Integer(c) => c.integer_result(),
            _ => Err(Error::make(ErrorKind::InvalidType, "json", "not an integer")),
        }
    }

    /// The bits of the float, or why there are none: the value is no float,
    /// or its literal has no reading.
    pub fn to_float_result(&self) -> (r: Result<u64, Error>)
        ensures
            match r {
                Ok(b) => self@ is Float && self@->Float_0.value() == Reading::Bits(b as int),
                Err(e) => if self@ is Float {
                    self@->Float_0.value() is Missing && e@.kind == ErrorKind::InvalidNumber
                } else {
                    e@.kind == ErrorKind::InvalidType
                },
            },
    {
        match self {
            Json::Float(c) => c.float_result(),
            _ => Err(Error::make(ErrorKind::InvalidType, "json", "not a float")),
        }
    }

    /// What the value counts as where a boolean is wanted.
    pub fn truth(&self) -> (r: Option<bool>)
        ensures
            r == spec_truth(self@),
    {
        match self {
            Json::Null => Some(false),
            Json::Bool(b) => Some(*b),
            Json::Integer(c) => match c.integer() {
                Some(n) => Some(n != 0),
                None => None,
            },
            Json::Float(c) => match c.float() {
                Some(b) => Some(!crate::float::bits_is_zero(b)),
                None => None,
            },
            Json::String(s) => Some(s.as_str().unicode_len() > 0),
            Json::Array(a) => {
                proof {
                    lemma_array_view(*a);
                }
                Some(a.len() > 0)
            },
            Json::Object(o) => {
                proof {
                    lemma_object_view(*o);
                }
                Some(o.len() > 0)
            },
            Json::__Error(_) => Some(false),
            Json::__Minbound => Some(true),
            Json::__Maxbound => Some(true),
        }
    }
}

/// Puts `item` among the members of `json` where that is an object, keeping
/// them sorted; any other value is left alone.
pub fn insert(json: &mut Json, item: Property)
    ensures
        match old(json)@ {
            Value::Object(members) => sorted(members) ==> final(json)@
                == Value::Object(upsert(members, item@)) && sorted(upsert(members, item@)),
            _ => final(json)@ == old(json)@,
        },
{
    match json {
        Json::Object(props) => {
            proof {
                lemma_object_view(*props);
            }
            upsert_object_key(props, item);
            proof {
                lemma_object_view(*props);
            }
        },
        _ => {},
    }
}

/// Once an item has failed, the walk over more items changes nothing.
pub proof fn lemma_walk_items_stops(orig: Seq<Value>, m: int, n: int)
    requires
        0 <= m <= n <= orig.len(),
        !walk_items(orig, m).1,
    ensures
        walk_items(orig, n) == walk_items(orig, m),
    decreases n - m,
{
    if m < n {
        lemma_walk_items_stops(orig, m, n - 1);
    }
}

/// Once a member has failed, the walk over more members changes nothing.
pub proof fn lemma_walk_members_stops(orig: Seq<Member>, m: int, n: int)
    requires
        0 <= m <= n <= orig.len(),
        !walk_members(orig, m).1,
    ensures
        walk_members(orig, n) == walk_members(orig, m),
    decreases n - m,
{
    if m < n {
        lemma_walk_members_stops(orig, m, n - 1);
    }
}

impl Json {
    /// Reads every number that is still a literal and keeps its value in the
    /// literal's place, in the order of the text. The first literal that
    /// denotes no number ends the walk with a failure: the numbers before it
    /// are computed, those after it are as they were.
    #[verifier::loop_isolation(false)]
    pub fn compute(&mut self) -> (r: Result<(), Error>)
        ensures
            final(self)@ == walk(old(self)@).0,
            r is Ok <==> walk(old(self)@).1,
            r is Err ==> r->Err_0@.kind == ErrorKind::InvalidNumber,
        decreases *old(self),
    {
        match self {
            Json::Integer(c) => c.compute(),
            Json::Float(c) => c.compute(),
            Json::Array(items) => {
                let ghost before = *items;
                let ghost orig = items_view(items@);
                proof {
                    lemma_array_view(before);
                }
                let n = items.len();
                let mut i: usize = 0;
                while i < n
                    invariant
                        i <= n,
                        n == items.len(),
                        before.len() == n,
                        forall|j: int| i <= j < n ==> items@[j] == before@[j],
                        items_view(items@) == walk_items(orig, i as int).0,
                        walk_items(orig, i as int).1,
                    decreases n - i,
                {
                    proof {
                        assert(decreases_to!(before => before[i as int]));
                        assert(items@[i as int] == before@[i as int]);
                    }
                    let ghost prev = items_view(items@);
                    let step = items[i].compute();
                    proof {
                        assert(items_view(items@) =~= prev.update(i as int, items@[i as int]@));
                    }
                    match step {
                        Err(e) => {
                            proof {
                                lemma_walk_items_stops(orig, i + 1, n as int);
                                lemma_array_view(*items);
                            }
                            return Err(e);
                        },
                        Ok(()) => {},
                    }
                    i = i + 1;
                }
                proof {
                    lemma_array_view(*items);
                }
                Ok(())
            },
            Json::Object(props) => {
                let ghost before = *props;
                let ghost orig = members_view(props@);
                proof {
                    lemma_object_view(before);
                }
                let n = props.len();
                let mut i: usize = 0;
                while i < n
                    invariant
                        i <= n,
                        n == props.len(),
                        before.len() == n,
                        forall|j: int| i <= j < n ==> props@[j] == before@[j],
                        members_view(props@) == walk_members(orig, i as int).0,
                        walk_members(orig, i as int).1,
                    decreases n - i,
                {
                    proof {
                        assert(decreases_to!(before => before[i as int]));
                        assert(props@[i as int] == before@[i as int]);
                    }
                    let ghost prev = members_view(props@);
                    let step = props[i].value.compute();
                    proof {
                        assert(members_view(props@) =~= prev.update(i as int, props@[i as int]@));
                    }
                    match step {
                        Err(e) => {
                            proof {
                                lemma_walk_members_stops(orig, i + 1, n as int);
                                lemma_object_view(*props);
                            }
                            return Err(e);
                        },
                        Ok(()) => {},
                    }
                    i = i + 1;
                }
                proof {
                    lemma_object_view(*props);
                }
                Ok(())
            },
            _ => Ok(()),
        }
    }

    /// Checks that every number of the value denotes one, by computing it:
    /// the same walk as [`Json::compute`].
    pub fn validate(&mut self) -> (r: Result<(), Error>)
        ensures
            final(self)@ == walk(old(self)@).0,
            r is Ok <==> walk(old(self)@).1,
            r is Err ==> r->Err_0@.kind == ErrorKind::InvalidNumber,
    {
        self.compute()
    }
}

impl Json {
    /// Appends the literals of the deferred floats of the value to `out`, in
    /// the order of the text.
    #[verifier::loop_isolation(false)]
    fn collect_float_literals(&self, out: &mut Vec<String>)
        ensures
            texts_view(final(out)@) == texts_view(old(out)@) + literals(self@),
        decreases self,
    {
        let ghost start = texts_view(out@);
        match self {
            Json::Float(Floating::Text { text, .. }) => {
                let mut s = String::new();
                push_chars(&mut s, text);
                out.push(s);
                assert(texts_view(out@) =~= start + literals(self@));
            },
            Json::Array(items) => {
                proof {
                    lemma_array_view(*items);
                }
                let ghost orig = items_view(items@);
                let mut i: usize = 0;
                while i < items.len()
                    invariant
                        i <= items.len(),
                        texts_view(out@) == start + literals_of_items(orig, i as int),
                    decreases items.len() - i,
                {
                    items[i].collect_float_literals(out);
                    i = i + 1;
                    assert(texts_view(out@) =~= start + literals_of_items(orig, i as int));
                }
            },
            Json::Object(props) => {
                proof {
                    lemma_object_view(*props);
                }
                let ghost orig = members_view(props@);
                let mut i: usize = 0;
                while i < props.len()
                    invariant
                        i <= props.len(),
                        texts_view(out@) == start + literals_of_members(orig, i as int),
                    decreases props.len() - i,
                {
                    props[i].value.collect_float_literals(out);
                    i = i + 1;
                    assert(texts_view(out@) =~= start + literals_of_members(orig, i as int));
                }
            },
            _ => {
                assert(texts_view(out@) =~= start + literals(self@));
            },
        }
    }

    /// The literals of the deferred floats of the value, in the order of the
    /// text: what the embedding program has to read.
    pub fn float_literals(&self) -> (r: Vec<String>)
        ensures
            texts_view(r@) == literals(self@),
    {
        let mut out: Vec<String> = Vec::new();
        self.collect_float_literals(&mut out);
        assert(texts_view(out@) =~= literals(self@));
        out
    }

    /// Gives the readings `readings[from..]` to the deferred floats of the
    /// value, in the order of the text, and returns the index of the first
    /// reading that was not used.
    #[verifier::loop_isolation(false)]
    fn read_floats_from(&mut self, readings: &Vec<Option<u64>>, from: usize) -> (next: usize)
        requires
            from <= readings.len(),
        ensures
            from <= next <= readings.len(),
            final(self)@ == fill(old(self)@, readings_view(readings@).skip(from as int)).0,
            readings_view(readings@).skip(next as int) == fill(
                old(self)@,
                readings_view(readings@).skip(from as int),
            ).1,
        decreases *old(self),
    {
        let ghost all = readings_view(readings@);
        match self {
            Json::Float(c) => {
                match c {
                    Floating::Text { value, .. } => {
                        if from < readings.len() {
                            *value = readings[from];
                            assert(all.skip(from as int).drop_first() =~= all.skip(from + 1));
                            from + 1
                        } else {
                            from
                        }
                    },
                    Floating::Data { .. } => from,
                }
            },
            Json::Array(items) => {
                let ghost before = *items;
                let ghost orig = items_view(items@);
                proof {
                    lemma_array_view(before);
                }
                let n = items.len();
                let mut i: usize = 0;
                let mut at: usize = from;
                while i < n
                    invariant
                        i <= n,
                        n == items.len(),
                        before.len() == n,
                        from <= at <= readings.len(),
                        forall|j: int| i <= j < n ==> items@[j] == before@[j],
                        items_view(items@) == fill_items(orig, i as int, all.skip(from as int)).0,
                        all.skip(at as int) == fill_items(orig, i as int, all.skip(from as int)).1,
                    decreases n - i,
                {
                    proof {
                        assert(decreases_to!(before => before[i as int]));
                        assert(items@[i as int] == before@[i as int]);
                    }
                    let ghost prev = items_view(items@);
                    at = items[i].read_floats_from(readings, at);
                    proof {
                        assert(items_view(items@) =~= prev.update(i as int, items@[i as int]@));
                    }
                    i = i + 1;
                }
                proof {
                    lemma_array_view(*items);
                }
                at
            },
            Json::Object(props) => {
                let ghost before = *props;
                let ghost orig = members_view(props@);
                proof {
                    lemma_object_view(before);
                }
                let n = props.len();
                let mut i: usize = 0;
                let mut at: usize = from;
                while i < n
                    invariant
                        i <= n,
                        n == props.len(),
                        before.len() == n,
                        from <= at <= readings.len(),
                        forall|j: int| i <= j < n ==> props@[j] == before@[j],
                        members_view(props@) == fill_members(
                            orig,
                            i as int,
                            all.skip(from as int),
                        ).0,
                        all.skip(at as int) == fill_members(
                            orig,
                            i as int,
                            all.skip(from as int),
                        ).1,
                    decreases n - i,
                {
                    proof {
                        assert(decreases_to!(before => before[i as int]));
                        assert(props@[i as int] == before@[i as int]);
                    }
                    let ghost prev = members_view(props@);
                    at = props[i].value.read_floats_from(readings, at);
                    proof {
                        assert(members_view(props@) =~= prev.update(i as int, props@[i as int]@));
                    }
                    i = i + 1;
                }
                proof {
                    lemma_object_view(*props);
                }
                at
            },
            _ => from,
        }
    }

    /// Gives the readings to the deferred floats of the value, in the order
    /// of the text: the first reading to the first literal that
    /// [`Json::float_literals`] lists, and so on. A deferred float for which
    /// no reading is left keeps the one it has.
    pub fn read_floats(&mut self, readings: &Vec<Option<u64>>)
        ensures
            final(self)@ == fill(old(self)@, readings_view(readings@)).0,
    {
        assert(readings_view(readings@).skip(0) =~= readings_view(readings@));
        let _ = self.read_floats_from(readings, 0);
    }
}

impl Json {
    /// Tells whether every object in the value has its members sorted by
    /// key, with no key twice.
    #[verifier::loop_isolation(false)]
    pub fn is_wf(&self) -> (r: bool)
        ensures
            r == self@.wf(),
        decreases self,
    {
        match self {
            Json::Array(items) => {
                proof {
                    lemma_array_view(*items);
                }
                let ghost all = items_view(items@);
                let mut i: usize = 0;
                while i < items.len()
                    invariant
                        i <= items.len(),
                        forall|k: int| 0 <= k < i ==> (#[trigger] all[k]).wf(),
                    decreases items.len() - i,
                {
                    if !items[i].is_wf() {
                        proof {
                            assert(self@ == Value::Array(all));
                            assert(Value::Array(all)->Array_0 =~= all);
                            if Value::Array(all).wf() {
                                assert(all[i as int].wf());
                            }
                        }
                        return false;
                    }
                    i = i + 1;
                }
                true
            },
            Json::Object(props) => {
                proof {
                    lemma_object_view(*props);
                }
                let ghost all = members_view(props@);
                let mut i: usize = 0;
                while i < props.len()
                    invariant
                        i <= props.len(),
                        forall|k: int| 0 <= k < i ==> (#[trigger] all[k]).value.wf(),
                        forall|p: int, q: int|
                            0 <= p < q < i ==> seq_order(
                                #[trigger] all[p].key,
                                #[trigger] all[q].key,
                            ) == Order::Less,
                    decreases props.len() - i,
                {
                    if i > 0 {
                        match str_order(props[i - 1].key.as_str(), props[i].key.as_str()) {
                            Order::Less => {
                                proof {
                                    assert forall|p: int| 0 <= p < i implies seq_order(
                                        #[trigger] all[p].key,
                                        all[i as int].key,
                                    ) == Order::Less by {
                                        if p < i - 1 {
                                            lemma_seq_order_trans(
                                                all[p].key,
                                                all[i - 1].key,
                                                all[i as int].key,
                                            );
                                        }
                                    }
                                }
                            },
                            _ => {
                                assert(seq_order(all[i - 1].key, all[i as int].key) != Order::Less);
                                return false;
                            },
                        }
                    }
                    if !props[i].value.is_wf() {
                        assert(!all[i as int].value.wf());
                        return false;
                    }
                    i = i + 1;
                }
                true
            },
            _ => true,
        }
    }
}

} // verus!
