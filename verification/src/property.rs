//! One member of an object, and the search that keeps members sorted.

use crate::json::{members_view, sorted, Json, Member};
use crate::order::Order;
use crate::text::{
    lemma_seq_order_equal,
    lemma_seq_order_flip,
    lemma_seq_order_trans,
    seq_order,
    str_order,
};
use vstd::prelude::*;

verus! {

/// A key with its value.
#[derive(Debug)]
pub struct Property {
    pub key: String,
    pub value: Json,
}

impl View for Property {
    type V = Member;

    open spec fn view(&self) -> Member {
        Member { key: self.key@, value: self.value@ }
    }
}

/// Number of leading members whose key lies before `key`.
pub open spec fn lower_bound(members: Seq<Member>, key: Seq<char>) -> int
    decreases members.len(),
{
    if members.len() == 0 {
        0
    } else if seq_order(members[0].key, key) == Order::Less {
        1 + lower_bound(members.drop_first(), key)
    } else {
        0
    }
}

/// Index of the member with the given key, if there is one where a sorted
/// object would hold it.
pub open spec fn position(members: Seq<Member>, key: Seq<char>) -> Option<int> {
    let i = lower_bound(members, key);
    if i < members.len() && members[i].key == key {
        Some(i)
    } else {
        None
    }
}

/// The members after `m` has been put among them: in the place of the member
/// with the same key, or else where its key belongs.
pub open spec fn upsert(members: Seq<Member>, m: Member) -> Seq<Member> {
    let i = lower_bound(members, m.key);
    if i < members.len() && members[i].key == m.key {
        members.update(i, m)
    } else {
        members.insert(i, m)
    }
}

/// The lower bound lies within the sequence, everything before it is
/// smaller, and what stands at it is not.
pub proof fn lemma_lower_bound(members: Seq<Member>, key: Seq<char>)
    ensures
        0 <= lower_bound(members, key) <= members.len(),
        forall|j: int|
            0 <= j < lower_bound(members, key) ==> seq_order(#[trigger] members[j].key, key)
                == Order::Less,
        lower_bound(members, key) < members.len() ==> seq_order(
            members[lower_bound(members, key)].key,
            key,
        ) != Order::Less,
    decreases members.len(),
{
    if members.len() > 0 && seq_order(members[0].key, key) == Order::Less {
        let rest = members.drop_first();
        lemma_lower_bound(rest, key);
        assert forall|j: int| 0 <= j < lower_bound(members, key) implies seq_order(
            #[trigger] members[j].key,
            key,
        ) == Order::Less by {
            if j > 0 {
                assert(members[j] == rest[j - 1]);
            }
        }
        if lower_bound(members, key) < members.len() {
            assert(members[lower_bound(members, key)] == rest[lower_bound(rest, key)]);
        }
    }
}

/// An index before which every key is smaller and at which the key is not is
/// the lower bound.
pub proof fn lemma_lower_bound_is(members: Seq<Member>, key: Seq<char>, i: int)
    requires
        0 <= i <= members.len(),
        forall|j: int| 0 <= j < i ==> seq_order(#[trigger] members[j].key, key) == Order::Less,
        i < members.len() ==> seq_order(members[i].key, key) != Order::Less,
    ensures
        lower_bound(members, key) == i,
    decreases members.len(),
{
    if members.len() > 0 && i > 0 {
        let rest = members.drop_first();
        assert(seq_order(members[0].key, key) == Order::Less);
        assert forall|j: int| 0 <= j < i - 1 implies seq_order(#[trigger] rest[j].key, key)
            == Order::Less by {
            assert(rest[j] == members[j + 1]);
        }
        if i - 1 < rest.len() {
            assert(rest[i - 1] == members[i]);
        }
        lemma_lower_bound_is(rest, key, i - 1);
    }
}

/// Putting a member among sorted members leaves them sorted.
pub proof fn lemma_upsert_sorted(members: Seq<Member>, m: Member)
    requires
        sorted(members),
    ensures
        sorted(upsert(members, m)),
{
    let i = lower_bound(members, m.key);
    let out = upsert(members, m);
    lemma_lower_bound(members, m.key);
    if i < members.len() && members[i].key == m.key {
        assert forall|p: int, q: int| 0 <= p < q < out.len() implies seq_order(
            #[trigger] out[p].key,
            #[trigger] out[q].key,
        ) == Order::Less by {
            assert(out[p].key == members[p].key);
            assert(out[q].key == members[q].key);
        }
    } else {
        assert forall|q: int| i <= q < members.len() implies seq_order(
            m.key,
            #[trigger] members[q].key,
        ) == Order::Less by {
            lemma_seq_order_flip(members[i].key, m.key);
            lemma_seq_order_equal(members[i].key, m.key);
            if q > i {
                lemma_seq_order_trans(m.key, members[i].key, members[q].key);
            }
        }
        assert forall|p: int, q: int| 0 <= p < q < out.len() implies seq_order(
            #[trigger] out[p].key,
            #[trigger] out[q].key,
        ) == Order::Less by {
            if q < i {
                assert(out[p] == members[p] && out[q] == members[q]);
            } else if q == i {
                assert(out[p] == members[p]);
            } else if p < i {
                assert(out[p] == members[p] && out[q] == members[q - 1]);
            } else if p == i {
                assert(out[q] == members[q - 1]);
            } else {
                assert(out[p] == members[p - 1] && out[q] == members[q - 1]);
            }
        }
    }
}

impl Property {
    /// The property with the given key and value.
    pub fn new(key: &str, value: Json) -> (r: Property)
        ensures
            r@ == (Member { key: key@, value: value@ }),
    {
        Property { key: key.to_owned(), value }
    }

    pub fn into_key(self) -> (r: String)
        ensures
            r@ == self@.key,
    {
        self.key
    }

    pub fn as_key(&self) -> (r: &str)
        ensures
            r@ == self@.key,
    {
        self.key.as_str()
    }

    pub fn into_value(self) -> (r: Json)
        ensures
            r@ == self@.value,
    {
        self.value
    }

    pub fn as_value(&self) -> (r: &Json)
        ensures
            r@ == self@.value,
    {
        &self.value
    }

    pub fn as_mut_value(&mut self) -> (r: &mut Json)
        ensures
            *r == old(self).value,
            *final(self) == (Property { key: old(self).key, value: *final(r) }),
    {
        &mut self.value
    }

    pub fn set_key(&mut self, key: String)
        ensures
            final(self)@ == (Member { key: key@, value: old(self)@.value }),
    {
        self.key = key;
    }

    pub fn set_value(&mut self, value: Json)
        ensures
            final(self)@ == (Member { key: old(self)@.key, value: value@ }),
    {
        self.value = value;
    }
}

/// Looks for `key` among members by halving. For sorted members the result
/// is `Ok` with the index of the member that has the key, or `Err` with the
/// index at which a member with that key belongs.
pub fn search(props: &Vec<Property>, key: &str) -> (r: Result<usize, usize>)
    ensures
        match r {
            Ok(i) => i < props.len(),
            Err(i) => i <= props.len(),
        },
        sorted(members_view(props@)) ==> match r {
            Ok(i) => position(members_view(props@), key@) == Some(i as int),
            Err(i) => position(members_view(props@), key@) is None && lower_bound(
                members_view(props@),
                key@,
            ) == i,
        },
{
    let ghost ms = members_view(props@);
    let mut lo: usize = 0;
    let mut hi: usize = props.len();
    while lo < hi
        invariant
            lo <= hi <= props.len(),
            ms == members_view(props@),
            sorted(ms) ==> forall|j: int|
                0 <= j < lo ==> seq_order(#[trigger] ms[j].key, key@) == Order::Less,
            sorted(ms) ==> forall|j: int|
                hi <= j < props.len() ==> seq_order(#[trigger] ms[j].key, key@) == Order::Greater,
        decreases hi - lo,
    {
        let mid: usize = lo + (hi - lo) / 2;
        let found = str_order(props[mid].key.as_str(), key);
        assert(ms[mid as int].key == props[mid as int].key@);
        match found {
            Order::Equal => {
                proof {
                    if sorted(ms) {
                        lemma_seq_order_equal(ms[mid as int].key, key@);
                        assert forall|j: int| 0 <= j < mid implies seq_order(
                            #[trigger] ms[j].key,
                            key@,
                        ) == Order::Less by {}
                        lemma_lower_bound_is(ms, key@, mid as int);
                    }
                }
                return Ok(mid);
            },
            Order::Less => {
                proof {
                    if sorted(ms) {
                        assert forall|j: int| 0 <= j < mid + 1 implies seq_order(
                            #[trigger] ms[j].key,
                            key@,
                        ) == Order::Less by {
                            if j < mid {
                                lemma_seq_order_trans(ms[j].key, ms[mid as int].key, key@);
                            }
                        }
                    }
                }
                lo = mid + 1;
            },
            Order::Greater => {
                proof {
                    if sorted(ms) {
                        assert forall|j: int| mid <= j < props.len() implies seq_order(
                            #[trigger] ms[j].key,
                            key@,
                        ) == Order::Greater by {
                            if j > mid {
                                lemma_seq_order_flip(ms[mid as int].key, key@);
                                lemma_seq_order_trans(key@, ms[mid as int].key, ms[j].key);
                                lemma_seq_order_flip(key@, ms[j].key);
                            }
                        }
                    }
                }
                hi = mid;
            },
        }
    }
    proof {
        if sorted(ms) {
            lemma_lower_bound_is(ms, key@, lo as int);
            if lo < props.len() {
                lemma_seq_order_equal(ms[lo as int].key, key@);
            }
        }
    }
    Err(lo)
}

/// Puts `prop` among the members of an object: over the member with the
/// same key, or else where its key belongs.
pub fn upsert_object_key(obj: &mut Vec<Property>, prop: Property)
    ensures
        sorted(members_view(old(obj)@)) ==> members_view(final(obj)@) == upsert(
            members_view(old(obj)@),
            prop@,
        ) && sorted(members_view(final(obj)@)),
{
    let ghost before = members_view(obj@);
    let ghost m = prop@;
    let found = search(obj, prop.key.as_str());
    match found {
        Ok(off) => {
            obj[off] = prop;
            proof {
                if sorted(before) {
                    assert(members_view(obj@) =~= before.update(off as int, m));
                    lemma_upsert_sorted(before, m);
                }
            }
        },
        Err(off) => {
            obj.insert(off, prop);
            proof {
                if sorted(before) {
                    assert(members_view(obj@) =~= before.insert(off as int, m));
                    lemma_upsert_sorted(before, m);
                }
            }
        },
    }
}

/// Every member of the result of [`upsert`] is the new member or one of the
/// old ones.
pub proof fn lemma_upsert_members(members: Seq<Member>, m: Member)
    ensures
        forall|i: int|
            0 <= i < upsert(members, m).len() ==> (#[trigger] upsert(members, m)[i]) == m || exists|
                j: int,
            | 0 <= j < members.len() && members[j] == upsert(members, m)[i],
{
    let k = lower_bound(members, m.key);
    let out = upsert(members, m);
    lemma_lower_bound(members, m.key);
    assert forall|i: int| 0 <= i < out.len() implies (#[trigger] out[i]) == m || exists|j: int|
        0 <= j < members.len() && members[j] == out[i] by {
        if k < members.len() && members[k].key == m.key {
            if i != k {
                assert(members[i] == out[i]);
            }
        } else {
            if i < k {
                assert(members[i] == out[i]);
            } else if i > k {
                assert(members[i - 1] == out[i]);
            }
        }
    }
}

} // verus!
