//! What holds of the order and the equality of values, for all values.

use crate::float::{
    lemma_top_bit_brackets,
    nat_to_bits,
    order_key,
    round_half_even,
    spec_int_to_bits,
    top_bit,
    HIDDEN_BIT,
};
use crate::json::{equal, items_order, members_order, number_order, order, walk, Member, Value};
use crate::num::{integer_of, FloatingView, IntegralView, Reading};
use crate::order::Order;
use crate::text::{lemma_seq_order_equal, lemma_seq_order_flip, lemma_seq_order_trans, seq_order};
use vstd::arithmetic::power2::{
    lemma2_to64,
    lemma2_to64_rest,
    lemma_pow2_adds,
    lemma_pow2_pos,
    lemma_pow2_strictly_increases,
    pow2,
};
use vstd::prelude::*;

verus! {

/// The outcome of a comparison seen from the other side.
pub open spec fn flipped(o: Option<Order>) -> Option<Order> {
    match o {
        Some(x) => Some(x.flip()),
        None => None,
    }
}

/// An integer literal that denotes a number, the cell that computing it
/// gives, and a cell made from the number itself are equal to one another
/// and take the same place in the order.
pub proof fn deferred_integer_is_its_value(t: Seq<char>)
    requires
        integer_of(t) is Some,
    ensures
        ({
            let deferred = Value::Integer(IntegralView::Text(t));
            let forced = walk(deferred).0;
            let native = Value::Integer(IntegralView::Data(integer_of(t)->0));
            &&& walk(deferred).1
            &&& forced == native
            &&& equal(deferred, forced)
            &&& equal(forced, deferred)
            &&& equal(deferred, deferred)
            &&& order(deferred, forced) == Some(Order::Equal)
            &&& order(forced, deferred) == Some(Order::Equal)
        }),
{
}

/// A float literal with its reading, the cell that computing it gives, and
/// a cell made from the bits themselves are equal to one another and take
/// the same place in the order.
pub proof fn deferred_float_is_its_value(t: Seq<char>, bits: int)
    ensures
        ({
            let deferred = Value::Float(FloatingView::Text(t, Reading::Bits(bits)));
            let forced = walk(deferred).0;
            let native = Value::Float(FloatingView::Data(bits));
            &&& walk(deferred).1
            &&& forced == native
            &&& equal(deferred, forced)
            &&& equal(forced, deferred)
            &&& equal(deferred, deferred)
            &&& order(deferred, forced) == Some(Order::Equal)
            &&& order(forced, deferred) == Some(Order::Equal)
        }),
{
}

/// The lower bound lies before every value but itself, and the upper bound
/// after every value but itself.
pub proof fn bounds_enclose_every_value(x: Value)
    ensures
        order(Value::Minbound, x) == Some(
            if x is Minbound {
                Order::Equal
            } else {
                Order::Less
            },
        ),
        order(x, Value::Maxbound) == Some(
            if x is Maxbound {
                Order::Equal
            } else {
                Order::Less
            },
        ),
{
}

/// Comparing two values the other way round gives the opposite outcome: of
/// `a < b`, `a` and `b` in the same place, and `a > b`, the one that holds of
/// `a` and `b` is the one whose opposite holds of `b` and `a`.
pub proof fn order_is_antisymmetric(a: Value, b: Value)
    ensures
        order(b, a) == flipped(order(a, b)),
    decreases a, 0int,
{
    if a.rank() == b.rank() {
        match (a, b) {
            (Value::String(x), Value::String(y)) => {
                lemma_seq_order_flip(x, y);
            },
            (Value::Array(x), Value::Array(y)) => {
                items_order_is_antisymmetric(x, y, 0);
            },
            (Value::Object(x), Value::Object(y)) => {
                members_order_is_antisymmetric(x, y, 0);
            },
            _ => {},
        }
    }
}

/// As [`order_is_antisymmetric`], for two arrays from an index on.
pub proof fn items_order_is_antisymmetric(a: Seq<Value>, b: Seq<Value>, i: int)
    requires
        0 <= i <= a.len(),
        i <= b.len(),
    ensures
        items_order(b, a, i) == flipped(items_order(a, b, i)),
    decreases a, a.len() - i,
{
    if i < a.len() && i < b.len() {
        order_is_antisymmetric(a[i], b[i]);
        items_order_is_antisymmetric(a, b, i + 1);
    }
}

/// As [`order_is_antisymmetric`], for two objects from a member on.
pub proof fn members_order_is_antisymmetric(a: Seq<Member>, b: Seq<Member>, i: int)
    requires
        0 <= i <= a.len(),
        i <= b.len(),
    ensures
        members_order(b, a, i) == flipped(members_order(a, b, i)),
    decreases a, a.len() - i,
{
    if i < a.len() && i < b.len() {
        lemma_seq_order_flip(a[i].key, b[i].key);
        order_is_antisymmetric(a[i].value, b[i].value);
        members_order_is_antisymmetric(a, b, i + 1);
    }
}

/// Largest magnitude up to which promoting an integer to a float loses
/// nothing: two to the power 53.
pub open spec fn exact_limit() -> int {
    0x20_0000_0000_0000
}

impl Value {
    /// Every number in the value has a value.
    pub open spec fn valued(self) -> bool
        decreases self,
    {
        match self {
            Value::Integer(c) => c.value() is Some,
            Value::Float(c) => c.value() is Bits,
            Value::Array(items) => forall|i: int|
                0 <= i < items.len() ==> (#[trigger] items[i]).valued(),
            Value::Object(members) => forall|i: int|
                0 <= i < members.len() ==> (#[trigger] members[i]).value.valued(),
            _ => true,
        }
    }

    /// Every number in the value has a value, and every integer is one that
    /// a float holds exactly.
    pub open spec fn exact(self) -> bool
        decreases self,
    {
        match self {
            Value::Integer(c) => c.value() is Some && -exact_limit() <= c.value()->0
                <= exact_limit(),
            Value::Float(c) => c.value() is Bits,
            Value::Array(items) => forall|i: int|
                0 <= i < items.len() ==> (#[trigger] items[i]).exact(),
            Value::Object(members) => forall|i: int|
                0 <= i < members.len() ==> (#[trigger] members[i]).value.exact(),
            _ => true,
        }
    }
}

/// The float of a positive integer up to two to the power 53 lies between
/// the floats of the powers of two around it.
proof fn lemma_promoted_range(n: nat)
    requires
        1 <= n <= exact_limit(),
    ensures
        top_bit(n) <= 53,
        (1023 + top_bit(n)) * HIDDEN_BIT <= nat_to_bits(n) < (1024 + top_bit(n)) * HIDDEN_BIT,
        nat_to_bits(n) < 0x7FF0_0000_0000_0000,
{
    lemma2_to64();
    lemma2_to64_rest();
    lemma_top_bit_brackets(n);
    let p = top_bit(n);
    if p > 53 {
        lemma_pow2_strictly_increases(53, p);
    }
    if p <= 52 {
        lemma_pow2_adds(p, (52 - p) as nat);
        lemma_pow2_pos((52 - p) as nat);
        let k = pow2((52 - p) as nat) as int;
        let t = pow2(p) as int;
        assert(t * k <= n * k < 2 * (t * k)) by (nonlinear_arith)
            requires
                t <= n < 2 * t,
                k > 0,
        ;
    } else {
        assert(n == exact_limit());
        assert(round_half_even(n, pow2(1)) == 0x10_0000_0000_0000);
    }
}

/// Among the positive integers up to two to the power 53 a greater integer
/// has a greater float.
proof fn lemma_promoted_increases(m: nat, n: nat)
    requires
        1 <= m < n <= exact_limit(),
    ensures
        nat_to_bits(m) < nat_to_bits(n),
{
    lemma2_to64();
    lemma2_to64_rest();
    lemma_top_bit_brackets(m);
    lemma_top_bit_brackets(n);
    lemma_promoted_range(m);
    lemma_promoted_range(n);
    let pm = top_bit(m);
    let pn = top_bit(n);
    if pm > pn {
        lemma_pow2_strictly_increases(pn, pm);
        if pm > pn + 1 {
            lemma_pow2_strictly_increases(pn + 1, pm);
        }
        vstd::arithmetic::power2::lemma_pow2_unfold(pn + 1);
    }
    if pm == pn {
        lemma_pow2_pos((52 - pm) as nat);
        let k = pow2((52 - pm) as nat) as int;
        assert(m * k < n * k) by (nonlinear_arith)
            requires
                m < n,
                k > 0,
        ;
    } else {
        assert((1024 + pm) * HIDDEN_BIT <= (1023 + pn) * HIDDEN_BIT) by (nonlinear_arith)
            requires
                pm < pn,
        ;
    }
}

/// Place of an integer on the line of floats.
pub open spec fn integer_key(n: int) -> int {
    order_key(spec_int_to_bits(n))
}

/// Among the integers that a float holds exactly a greater integer takes a
/// later place on the line of floats.
pub proof fn lemma_integer_key_increases(p: int, q: int)
    requires
        -exact_limit() <= p < q <= exact_limit(),
    ensures
        integer_key(p) < integer_key(q),
{
    if p > 0 {
        lemma_promoted_range(p as nat);
        lemma_promoted_range(q as nat);
        lemma_promoted_increases(p as nat, q as nat);
    } else if p == 0 {
        lemma_promoted_range(q as nat);
    } else {
        lemma_promoted_range((-p) as nat);
        if q > 0 {
            lemma_promoted_range(q as nat);
        } else if q < 0 {
            lemma_promoted_range((-q) as nat);
            lemma_promoted_increases((-q) as nat, (-p) as nat);
        }
    }
}

/// Place of an exact number in the order of numbers.
pub open spec fn number_key(v: Value) -> int {
    match v.float_bits() {
        Some(b) => order_key(b),
        None => 0,
    }
}

/// Exact numbers are ordered by their places on the line of floats.
pub proof fn lemma_number_order_by_key(a: Value, b: Value)
    requires
        a.exact(),
        b.exact(),
        a is Integer || a is Float,
        b is Integer || b is Float,
    ensures
        number_order(a, b) == Some(Order::of_ints(number_key(a), number_key(b))),
{
    match (a, b) {
        (Value::Integer(x), Value::Integer(y)) => {
            let p = x.value()->0;
            let q = y.value()->0;
            if p < q {
                lemma_integer_key_increases(p, q);
            } else if q < p {
                lemma_integer_key_increases(q, p);
            }
        },
        _ => {},
    }
}

/// What follows from two comparisons in a row, neither of which is
/// `Greater`: `Equal` after two `Equal`, `Less` otherwise.
pub open spec fn composed(first: Order, second: Order) -> Order {
    if first == Order::Equal && second == Order::Equal {
        Order::Equal
    } else {
        Order::Less
    }
}

impl Value {
    /// Every number in the value is an integer that has a value.
    pub open spec fn whole(self) -> bool
        decreases self,
    {
        match self {
            Value::Integer(c) => c.value() is Some,
            Value::Float(_) => false,
            Value::Array(items) => forall|i: int|
                0 <= i < items.len() ==> (#[trigger] items[i]).whole(),
            Value::Object(members) => forall|i: int|
                0 <= i < members.len() ==> (#[trigger] members[i]).value.whole(),
            _ => true,
        }
    }

    /// The value is one among which the order is transitive: with `floats`,
    /// its integers are such as a float holds exactly; without, it holds no
    /// float at all.
    pub open spec fn steady(self, floats: bool) -> bool {
        if floats {
            self.exact()
        } else {
            self.whole()
        }
    }
}

/// The parts of a steady value are steady.
pub proof fn lemma_steady_parts(v: Value, floats: bool)
    requires
        v.steady(floats),
    ensures
        v is Object ==> forall|i: int|
            0 <= i < v->Object_0.len() ==> (#[trigger] v->Object_0[i]).value.steady(floats),
        v is Array ==> forall|i: int|
            0 <= i < v->Array_0.len() ==> (#[trigger] v->Array_0[i]).steady(floats),
{
}

/// Two comparisons in a row, neither of which is `Greater`, tell how the
/// first value compares with the third: among values without floats, and
/// among values whose integers are at most two to the power 53 in
/// magnitude. Next to a float an integer compares as the float nearest to
/// it, and two different integers beyond that can have the same.
pub proof fn order_composes(a: Value, b: Value, c: Value, floats: bool)
    requires
        a.steady(floats),
        b.steady(floats),
        c.steady(floats),
        order(a, b) is Some,
        order(b, c) is Some,
        order(a, b) != Some(Order::Greater),
        order(b, c) != Some(Order::Greater),
    ensures
        order(a, c) == Some(composed(order(a, b)->0, order(b, c)->0)),
    decreases a, 0int,
{
    lemma_steady_parts(a, floats);
    lemma_steady_parts(b, floats);
    lemma_steady_parts(c, floats);
    if a.rank() == b.rank() && b.rank() == c.rank() {
        match (a, b, c) {
            (Value::String(x), Value::String(y), Value::String(z)) => {
                lemma_seq_order_equal(x, y);
                lemma_seq_order_equal(y, z);
                lemma_seq_order_equal(x, z);
                if seq_order(x, y) == Order::Less && seq_order(y, z) == Order::Less {
                    lemma_seq_order_trans(x, y, z);
                }
            },
            (Value::Array(x), Value::Array(y), Value::Array(z)) => {
                items_order_composes(x, y, z, 0, floats);
            },
            (Value::Object(x), Value::Object(y), Value::Object(z)) => {
                members_order_composes(x, y, z, 0, floats);
            },
            (Value::Integer(_), _, _) | (Value::Float(_), _, _) => {
                if floats {
                    lemma_number_order_by_key(a, b);
                    lemma_number_order_by_key(b, c);
                    lemma_number_order_by_key(a, c);
                }
            },
            _ => {},
        }
    }
}

/// As [`order_composes`], for three arrays from an index on.
pub proof fn items_order_composes(
    a: Seq<Value>,
    b: Seq<Value>,
    c: Seq<Value>,
    i: int,
    floats: bool,
)
    requires
        0 <= i <= a.len(),
        i <= b.len(),
        i <= c.len(),
        forall|k: int| 0 <= k < a.len() ==> (#[trigger] a[k]).steady(floats),
        forall|k: int| 0 <= k < b.len() ==> (#[trigger] b[k]).steady(floats),
        forall|k: int| 0 <= k < c.len() ==> (#[trigger] c[k]).steady(floats),
        items_order(a, b, i) is Some,
        items_order(b, c, i) is Some,
        items_order(a, b, i) != Some(Order::Greater),
        items_order(b, c, i) != Some(Order::Greater),
    ensures
        items_order(a, c, i) == Some(composed(items_order(a, b, i)->0, items_order(b, c, i)->0)),
    decreases a, a.len() - i,
{
    if i < a.len() {
        assert(i < b.len());
        assert(i < c.len());
        order_composes(a[i], b[i], c[i], floats);
        if order(a[i], b[i]) == Some(Order::Equal) && order(b[i], c[i]) == Some(Order::Equal) {
            items_order_composes(a, b, c, i + 1, floats);
        }
    }
}

/// As [`order_composes`], for three objects from a member on.
pub proof fn members_order_composes(
    a: Seq<Member>,
    b: Seq<Member>,
    c: Seq<Member>,
    i: int,
    floats: bool,
)
    requires
        0 <= i <= a.len(),
        i <= b.len(),
        i <= c.len(),
        forall|k: int| 0 <= k < a.len() ==> (#[trigger] a[k]).value.steady(floats),
        forall|k: int| 0 <= k < b.len() ==> (#[trigger] b[k]).value.steady(floats),
        forall|k: int| 0 <= k < c.len() ==> (#[trigger] c[k]).value.steady(floats),
        members_order(a, b, i) is Some,
        members_order(b, c, i) is Some,
        members_order(a, b, i) != Some(Order::Greater),
        members_order(b, c, i) != Some(Order::Greater),
    ensures
        members_order(a, c, i) == Some(
            composed(members_order(a, b, i)->0, members_order(b, c, i)->0),
        ),
    decreases a, a.len() - i,
{
    if i < a.len() {
        assert(i < b.len());
        assert(i < c.len());
        let x = a[i].key;
        let y = b[i].key;
        let z = c[i].key;
        lemma_seq_order_equal(x, y);
        lemma_seq_order_equal(y, z);
        lemma_seq_order_equal(x, z);
        if seq_order(x, y) == Order::Less && seq_order(y, z) == Order::Less {
            lemma_seq_order_trans(x, y, z);
        }
        if seq_order(x, y) == Order::Equal && seq_order(y, z) == Order::Equal {
            order_composes(a[i].value, b[i].value, c[i].value, floats);
            if order(a[i].value, b[i].value) == Some(Order::Equal) && order(
                b[i].value,
                c[i].value,
            ) == Some(Order::Equal) {
                members_order_composes(a, b, c, i + 1, floats);
            }
        }
    }
}

/// The order of values is transitive, among values without floats and among
/// values whose integers are at most two to the power 53 in magnitude.
/// What is left out are integers beyond that next to floats: there an
/// integer compares as the float nearest to it.
pub proof fn order_is_transitive(a: Value, b: Value, c: Value)
    requires
        (a.exact() && b.exact() && c.exact()) || (a.whole() && b.whole() && c.whole()),
        order(a, b) == Some(Order::Less),
        order(b, c) == Some(Order::Less),
    ensures
        order(a, c) == Some(Order::Less),
{
    order_composes(a, b, c, a.exact() && b.exact() && c.exact());
}

/// The parts of a value whose numbers all have a value are such values.
pub proof fn lemma_valued_parts(v: Value)
    requires
        v.valued(),
    ensures
        v is Object ==> forall|i: int|
            0 <= i < v->Object_0.len() ==> (#[trigger] v->Object_0[i]).value.valued(),
        v is Array ==> forall|i: int|
            0 <= i < v->Array_0.len() ==> (#[trigger] v->Array_0[i]).valued(),
{
}

/// Every two values whose numbers all have a value are comparable: of
/// `a < b`, `a` and `b` in the same place, and `a > b`, one holds.
pub proof fn order_is_total(a: Value, b: Value)
    requires
        a.valued(),
        b.valued(),
    ensures
        order(a, b) is Some,
    decreases a, 0int,
{
    lemma_valued_parts(a);
    lemma_valued_parts(b);
    if a.rank() == b.rank() {
        match (a, b) {
            (Value::Array(x), Value::Array(y)) => {
                items_order_is_total(x, y, 0);
            },
            (Value::Object(x), Value::Object(y)) => {
                members_order_is_total(x, y, 0);
            },
            _ => {},
        }
    }
}

/// As [`order_is_total`], for two arrays from an index on.
pub proof fn items_order_is_total(a: Seq<Value>, b: Seq<Value>, i: int)
    requires
        0 <= i,
        forall|k: int| 0 <= k < a.len() ==> (#[trigger] a[k]).valued(),
        forall|k: int| 0 <= k < b.len() ==> (#[trigger] b[k]).valued(),
    ensures
        items_order(a, b, i) is Some,
    decreases a, a.len() - i,
{
    if i < a.len() && i < b.len() {
        order_is_total(a[i], b[i]);
        items_order_is_total(a, b, i + 1);
    }
}

/// As [`order_is_total`], for two objects from a member on.
pub proof fn members_order_is_total(a: Seq<Member>, b: Seq<Member>, i: int)
    requires
        0 <= i,
        forall|k: int| 0 <= k < a.len() ==> (#[trigger] a[k]).value.valued(),
        forall|k: int| 0 <= k < b.len() ==> (#[trigger] b[k]).value.valued(),
    ensures
        members_order(a, b, i) is Some,
    decreases a, a.len() - i,
{
    if i < a.len() && i < b.len() {
        order_is_total(a[i].value, b[i].value);
        members_order_is_total(a, b, i + 1);
    }
}

} // verus!
