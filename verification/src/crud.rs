//! Reading and changing a document through JSON Pointers.
//!
//! A path is empty, and then denotes the whole document, or starts with a
//! slash and names one fragment after the other. A fragment is the key of a
//! member where it meets an object and an index where it meets an array.

use crate::error::{Error, ErrorKind};
use crate::jptr::{fix_prefix, fragments, frags_view, split};
use crate::json::{
    items_view,
    lemma_array_view,
    lemma_object_view,
    members_view,
    sorted,
    Json,
    Member,
    Value,
};
use crate::num::{fit_i128, parse_decimal, signed_value};
use crate::ops::{child, index_of_text, normalized_offset, spec_index_text, spec_offset};
use crate::property::{
    lemma_lower_bound,
    lemma_upsert_members,
    lemma_upsert_sorted,
    position,
    search,
    upsert,
    upsert_object_key,
    Property,
};
use crate::text::{chars_of, push_str, seq_order};
use vstd::prelude::*;

verus! {

/// The value reached from `v` by the first `n` of the fragments, or the kind
/// of the failure on the way.
pub open spec fn descend(v: Value, frags: Seq<Seq<char>>, n: int) -> Result<Value, ErrorKind>
    decreases n,
{
    if n <= 0 || n > frags.len() {
        Ok(v)
    } else {
        match descend(v, frags, n - 1) {
            Ok(w) => child(w, frags[n - 1]),
            Err(k) => Err(k),
        }
    }
}

/// What a path denotes in a document: the document itself for the empty
/// path, else the value reached by the fragments after the leading slash. A
/// path that is no pointer, a fragment that leads nowhere, and a failure
/// value at the end of the path give the kind of the failure.
pub open spec fn spec_get(v: Value, path: Seq<char>) -> Result<Value, ErrorKind> {
    if path.len() == 0 {
        Ok(v)
    } else if path[0] != '/' {
        Err(ErrorKind::JptrFail)
    } else {
        match split(path.skip(1)) {
            Err(_) => Err(ErrorKind::JptrFail),
            Ok((frags, last)) => match descend(v, frags, frags.len() as int) {
                Ok(w) => match child(w, last) {
                    Ok(Value::Error(e)) => Err(e.kind),
                    other => other,
                },
                Err(k) => Err(k),
            },
        }
    }
}

/// A change at the end of a path.
pub enum Edit {
    /// Put a value under a key of an object or at an index of an array.
    Put(Seq<char>, Value),
    /// Take out the member with a key or the item at an index.
    Delete(Seq<char>),
    /// Join a string to a string, or add an item to an array.
    Append(Value),
}

/// The index that a fragment denotes where an item is set or deleted: a
/// decimal integer without a minus sign that the machine's index type holds.
pub open spec fn spec_place(key: Seq<char>) -> Option<int> {
    match fit_i128(signed_value(key, 10)) {
        Some(n) => if key[0] != '-' && n <= usize::MAX {
            Some(n)
        } else {
            None
        },
        None => None,
    }
}

/// The value `v` after a change has been made to it.
pub open spec fn apply(v: Value, e: Edit) -> Result<Value, ErrorKind> {
    match e {
        Edit::Put(key, x) => match v {
            Value::Array(items) => match spec_place(key) {
                Some(n) => if n < items.len() {
                    Ok(Value::Array(items.update(n, x)))
                } else {
                    Err(ErrorKind::IndexOutofBound)
                },
                None => Err(ErrorKind::InvalidIndex),
            },
            Value::Object(members) => Ok(Value::Object(upsert(members, Member { key, value: x }))),
            _ => Err(ErrorKind::InvalidContainer),
        },
        Edit::Delete(key) => match v {
            Value::Array(items) => match spec_place(key) {
                Some(n) => if n < items.len() {
                    Ok(Value::Array(items.remove(n)))
                } else {
                    Err(ErrorKind::IndexOutofBound)
                },
                None => Err(ErrorKind::InvalidIndex),
            },
            Value::Object(members) => match position(members, key) {
                Some(i) => Ok(Value::Object(members.remove(i))),
                None => Err(ErrorKind::PropertyNotFound),
            },
            _ => Err(ErrorKind::InvalidContainer),
        },
        Edit::Append(x) => match v {
            Value::String(s) => match x {
                Value::String(t) => Ok(Value::String(s + t)),
                _ => Err(ErrorKind::AppendString),
            },
            Value::Array(items) => Ok(Value::Array(items.push(x))),
            _ => Err(ErrorKind::InvalidContainer),
        },
    }
}

/// The value `v` after the change `e` has been made at the end of the path
/// that the fragments describe. A failure value on the way is passed
/// through: the next fragment is looked up in it again.
pub open spec fn spec_edit(v: Value, frags: Seq<Seq<char>>, e: Edit) -> Result<Value, ErrorKind>
    decreases frags.len(),
{
    if frags.len() == 0 {
        apply(v, e)
    } else {
        match v {
            Value::Object(members) => match position(members, frags[0]) {
                Some(i) => match spec_edit(members[i].value, frags.skip(1), e) {
                    Ok(w) => Ok(
                        Value::Object(members.update(i, Member { key: members[i].key, value: w })),
                    ),
                    Err(k) => Err(k),
                },
                None => Err(ErrorKind::PropertyNotFound),
            },
            Value::Array(items) => match spec_index_text(frags[0]) {
                Some(n) => match spec_offset(n, items.len() as int) {
                    Some(i) => match spec_edit(items[i], frags.skip(1), e) {
                        Ok(w) => Ok(Value::Array(items.update(i, w))),
                        Err(k) => Err(k),
                    },
                    None => Err(ErrorKind::IndexOutofBound),
                },
                None => Err(ErrorKind::InvalidIndex),
            },
            Value::Error(_) => spec_edit(v, frags.skip(1), e),
            _ => Err(ErrorKind::InvalidContainer),
        }
    }
}

/// What a change through a path leaves of a document: nothing changes for
/// the empty path; a path that is no pointer fails.
pub open spec fn spec_change(v: Value, path: Seq<char>, set: bool, x: Value) -> Result<
    Value,
    ErrorKind,
> {
    if path.len() == 0 {
        Ok(v)
    } else if path[0] != '/' {
        Err(ErrorKind::JptrFail)
    } else {
        match split(path.skip(1)) {
            Err(_) => Err(ErrorKind::JptrFail),
            Ok((frags, last)) => spec_edit(
                v,
                frags,
                if set {
                    Edit::Put(last, x)
                } else {
                    Edit::Delete(last)
                },
            ),
        }
    }
}

/// What appending through a path leaves of a document.
pub open spec fn spec_append(v: Value, path: Seq<char>, x: Value) -> Result<Value, ErrorKind> {
    if path.len() == 0 {
        Ok(v)
    } else if path[0] != '/' {
        Err(ErrorKind::JptrFail)
    } else {
        match split(path.skip(1)) {
            Err(_) => Err(ErrorKind::JptrFail),
            Ok((frags, last)) => spec_edit(v, frags.push(last), Edit::Append(x)),
        }
    }
}

/// A change at the end of a path, with the values that it carries.
pub enum Change {
    Put(String, Json),
    Delete(String),
    Append(Json),
}

impl View for Change {
    type V = Edit;

    open spec fn view(&self) -> Edit {
        match self {
            Change::Put(k, v) => Edit::Put(k@, v@),
            Change::Delete(k) => Edit::Delete(k@),
            Change::Append(v) => Edit::Append(v@),
        }
    }
}

impl Edit {
    /// The value that the change brings in, if any, is well formed.
    pub open spec fn wf(self) -> bool {
        match self {
            Edit::Put(_, v) => v.wf(),
            Edit::Delete(_) => true,
            Edit::Append(v) => v.wf(),
        }
    }
}

/// The members of a well-formed object are sorted and their values are well
/// formed; the items of a well-formed array are.
pub proof fn lemma_wf_parts(v: Value)
    requires
        v.wf(),
    ensures
        v is Object ==> sorted(v->Object_0) && forall|i: int|
            0 <= i < v->Object_0.len() ==> (#[trigger] v->Object_0[i]).value.wf(),
        v is Array ==> forall|i: int| 0 <= i < v->Array_0.len() ==> (#[trigger] v->Array_0[i]).wf(),
{
}

/// A change to a well-formed value that brings in a well-formed value
/// leaves a well-formed value.
pub proof fn lemma_apply_wf(v: Value, e: Edit)
    requires
        v.wf(),
        e.wf(),
        apply(v, e) is Ok,
    ensures
        apply(v, e)->Ok_0.wf(),
{
    lemma_wf_parts(v);
    let out = apply(v, e)->Ok_0;
    match e {
        Edit::Put(key, x) => match v {
            Value::Array(items) => {
                assert(out->Array_0 =~= items.update(spec_place(key)->0, x));
            },
            Value::Object(members) => {
                let m = Member { key, value: x };
                lemma_upsert_sorted(members, m);
                lemma_upsert_members(members, m);
                let ms = upsert(members, m);
                assert(out->Object_0 =~= ms);
                assert forall|k: int| 0 <= k < ms.len() implies (#[trigger] ms[k]).value.wf() by {
                    if ms[k] != m {
                        let w = choose|w: int| 0 <= w < members.len() && members[w] == ms[k];
                        assert(members[w].value.wf());
                    }
                }
            },
            _ => {},
        },
        Edit::Delete(key) => match v {
            Value::Array(items) => {
                let n = spec_place(key)->0;
                let rest = items.remove(n);
                assert(out->Array_0 =~= rest);
                assert forall|k: int| 0 <= k < rest.len() implies (#[trigger] rest[k]).wf() by {
                    if k < n {
                        assert(rest[k] == items[k]);
                    } else {
                        assert(rest[k] == items[k + 1]);
                    }
                }
            },
            Value::Object(members) => {
                let n = position(members, key)->0;
                lemma_lower_bound(members, key);
                let rest = members.remove(n);
                assert(out->Object_0 =~= rest);
                assert forall|k: int| 0 <= k < rest.len() implies (
                #[trigger] rest[k]).value.wf() by {
                    if k < n {
                        assert(rest[k] == members[k]);
                    } else {
                        assert(rest[k] == members[k + 1]);
                    }
                }
                assert forall|p: int, q: int| 0 <= p < q < rest.len() implies seq_order(
                    #[trigger] rest[p].key,
                    #[trigger] rest[q].key,
                ) == crate::order::Order::Less by {
                    let p0 = if p < n {
                        p
                    } else {
                        p + 1
                    };
                    let q0 = if q < n {
                        q
                    } else {
                        q + 1
                    };
                    assert(rest[p] == members[p0]);
                    assert(rest[q] == members[q0]);
                }
            },
            _ => {},
        },
        Edit::Append(x) => match v {
            Value::Array(items) => {
                let more = items.push(x);
                assert(out->Array_0 =~= more);
                assert forall|k: int| 0 <= k < more.len() implies (#[trigger] more[k]).wf() by {
                    if k < items.len() {
                        assert(more[k] == items[k]);
                    }
                }
            },
            _ => {},
        },
    }
}

/// A change through a path to a well-formed value that brings in a
/// well-formed value leaves a well-formed value: every object still has its
/// members sorted by key.
pub proof fn lemma_edit_wf(v: Value, frags: Seq<Seq<char>>, e: Edit)
    requires
        v.wf(),
        e.wf(),
        spec_edit(v, frags, e) is Ok,
    ensures
        spec_edit(v, frags, e)->Ok_0.wf(),
    decreases frags.len(),
{
    lemma_wf_parts(v);
    if frags.len() == 0 {
        lemma_apply_wf(v, e);
    } else {
        let out = spec_edit(v, frags, e)->Ok_0;
        match v {
            Value::Object(members) => {
                let i = position(members, frags[0])->0;
                lemma_lower_bound(members, frags[0]);
                lemma_edit_wf(members[i].value, frags.skip(1), e);
                let w = spec_edit(members[i].value, frags.skip(1), e)->Ok_0;
                let ms = members.update(i, Member { key: members[i].key, value: w });
                assert(out->Object_0 =~= ms);
                assert forall|p: int, q: int| 0 <= p < q < ms.len() implies seq_order(
                    #[trigger] ms[p].key,
                    #[trigger] ms[q].key,
                ) == crate::order::Order::Less by {
                    assert(ms[p].key == members[p].key);
                    assert(ms[q].key == members[q].key);
                }
                assert forall|k: int| 0 <= k < ms.len() implies (#[trigger] ms[k]).value.wf() by {
                    if k != i {
                        assert(ms[k] == members[k]);
                    }
                }
            },
            Value::Array(items) => {
                let n = spec_index_text(frags[0])->0;
                let i = spec_offset(n, items.len() as int)->0;
                lemma_edit_wf(items[i], frags.skip(1), e);
                let w = spec_edit(items[i], frags.skip(1), e)->Ok_0;
                let more = items.update(i, w);
                assert(out->Array_0 =~= more);
                assert forall|k: int| 0 <= k < more.len() implies (#[trigger] more[k]).wf() by {
                    if k != i {
                        assert(more[k] == items[k]);
                    }
                }
            },
            Value::Error(_) => {
                lemma_edit_wf(v, frags.skip(1), e);
            },
            _ => {},
        }
    }
}

/// Reads a fragment of a path as the index of an item to set or delete.
pub fn place_of_text(key: &str) -> (r: Option<usize>)
    ensures
        spec_place(key@) == match r {
            Some(n) => Some(n as int),
            None => None,
        },
{
    let text = chars_of(key);
    match parse_decimal(&text) {
        Some(n) => {
            if text[0] != '-' && n <= usize::MAX as i128 {
                Some(n as usize)
            } else {
                None
            }
        },
        None => None,
    }
}

fn fail<T>(kind: ErrorKind, what: &str) -> (r: Result<T, Error>)
    ensures
        r is Err,
        r->Err_0@.kind == kind,
{
    Err(Error::make(kind, "jptr", what))
}

/// Makes a change to a value.
fn apply_change(json: &mut Json, change: Change) -> (r: Result<(), Error>)
    ensures
        r is Err ==> final(json)@ == old(json)@,
        (old(json)@ is Object ==> sorted(old(json)@->Object_0)) ==> match apply(
            old(json)@,
            change@,
        ) {
            Ok(v) => r is Ok && final(json)@ == v,
            Err(k) => r is Err && r->Err_0@.kind == k,
        },
{
    match change {
        Change::Put(key, x) => match json {
            Json::Array(items) => {
                proof {
                    lemma_array_view(*items);
                }
                match place_of_text(key.as_str()) {
                    Some(n) => {
                        if n < items.len() {
                            let ghost before = items_view(items@);
                            items[n] = x;
                            proof {
                                lemma_array_view(*items);
                                assert(items_view(items@) =~= before.update(n as int, x@));
                            }
                            Ok(())
                        } else {
                            fail(ErrorKind::IndexOutofBound, key.as_str())
                        }
                    },
                    None => fail(ErrorKind::InvalidIndex, key.as_str()),
                }
            },
            Json::Object(props) => {
                proof {
                    lemma_object_view(*props);
                }
                upsert_object_key(props, Property { key, value: x });
                proof {
                    lemma_object_view(*props);
                }
                Ok(())
            },
            _ => fail(ErrorKind::InvalidContainer, key.as_str()),
        },
        Change::Delete(key) => match json {
            Json::Array(items) => {
                proof {
                    lemma_array_view(*items);
                }
                match place_of_text(key.as_str()) {
                    Some(n) => {
                        if n < items.len() {
                            let ghost before = items_view(items@);
                            let _ = items.remove(n);
                            proof {
                                lemma_array_view(*items);
                                assert(items_view(items@) =~= before.remove(n as int));
                            }
                            Ok(())
                        } else {
                            fail(ErrorKind::IndexOutofBound, key.as_str())
                        }
                    },
                    None => fail(ErrorKind::InvalidIndex, key.as_str()),
                }
            },
            Json::Object(props) => {
                proof {
                    lemma_object_view(*props);
                }
                match search(props, key.as_str()) {
                    Ok(off) => {
                        let ghost before = members_view(props@);
                        let _ = props.remove(off);
                        proof {
                            lemma_object_view(*props);
                            assert(members_view(props@) =~= before.remove(off as int));
                        }
                        Ok(())
                    },
                    Err(_) => fail(ErrorKind::PropertyNotFound, key.as_str()),
                }
            },
            _ => fail(ErrorKind::InvalidContainer, key.as_str()),
        },
        Change::Append(x) => match json {
            Json::String(s) => match x {
                Json::String(t) => {
                    push_str(s, t.as_str());
                    Ok(())
                },
                other => fail(ErrorKind::AppendString, other.typename().as_str()),
            },
            Json::Array(items) => {
                proof {
                    lemma_array_view(*items);
                }
                let ghost before = items_view(items@);
                items.push(x);
                proof {
                    lemma_array_view(*items);
                    assert(items_view(items@) =~= before.push(x@));
                }
                Ok(())
            },
            _ => fail(ErrorKind::InvalidContainer, "append"),
        },
    }
}

/// Follows the fragments from `frags[depth]` on and makes the change where
/// they end.
fn edit_at(json: &mut Json, frags: &Vec<String>, depth: usize, change: Change) -> (r: Result<
    (),
    Error,
>)
    requires
        depth <= frags.len(),
    ensures
        r is Err ==> final(json)@ == old(json)@,
        old(json)@.wf() ==> match spec_edit(
            old(json)@,
            frags_view(frags@).skip(depth as int),
            change@,
        ) {
            Ok(v) => r is Ok && final(json)@ == v,
            Err(k) => r is Err && r->Err_0@.kind == k,
        },
    decreases frags.len() - depth,
{
    let ghost path = frags_view(frags@).skip(depth as int);
    proof {
        if old(json)@.wf() {
            lemma_wf_parts(old(json)@);
        }
    }
    if depth == frags.len() {
        return apply_change(json, change);
    }
    let frag = frags[depth].as_str();
    proof {
        assert(path[0] == frag@);
        assert(path.skip(1) =~= frags_view(frags@).skip(depth + 1));
    }
    match json {
        Json::Object(props) => {
            proof {
                lemma_object_view(*props);
            }
            match search(props, frag) {
                Ok(off) => {
                    let ghost before = members_view(props@);
                    let r = edit_at(&mut props[off].value, frags, depth + 1, change);
                    proof {
                        lemma_object_view(*props);
                        assert(members_view(props@) =~= before.update(
                            off as int,
                            Member {
                                key: before[off as int].key,
                                value: props@[off as int].value@,
                            },
                        ));
                        if r is Err {
                            assert(members_view(props@) =~= before);
                        }
                    }
                    r
                },
                Err(_) => fail(ErrorKind::PropertyNotFound, frag),
            }
        },
        Json::Array(items) => {
            proof {
                lemma_array_view(*items);
            }
            match index_of_text(frag) {
                Some(n) => match normalized_offset(n, items.len()) {
                    Some(off) => {
                        let ghost before = items_view(items@);
                        let r = edit_at(&mut items[off], frags, depth + 1, change);
                        proof {
                            lemma_array_view(*items);
                            assert(items_view(items@) =~= before.update(
                                off as int,
                                items@[off as int]@,
                            ));
                            if r is Err {
                                assert(items_view(items@) =~= before);
                            }
                        }
                        r
                    },
                    None => fail(ErrorKind::IndexOutofBound, frag),
                },
                None => fail(ErrorKind::InvalidIndex, frag),
            }
        },
        Json::__Error(_) => edit_at(json, frags, depth + 1, change),
        _ => fail(ErrorKind::InvalidContainer, frag),
    }
}

impl Json {
    /// A copy of the value that a path denotes.
    #[verifier::loop_isolation(false)]
    pub fn get(&self, path: &str) -> (r: Result<Json, Error>)
        ensures
            self@.wf() ==> match spec_get(self@, path@) {
                Ok(v) => r is Ok && r->Ok_0@ == v,
                Err(k) => r is Err && r->Err_0@.kind == k,
            },
    {
        if path.is_empty() {
            return Ok(self.duplicate());
        }
        let rest = match fix_prefix(path) {
            Ok(rest) => rest,
            Err(m) => {
                return fail(ErrorKind::JptrFail, m.as_str());
            },
        };
        let (frags, last) = match fragments(rest) {
            Ok(found) => found,
            Err(m) => {
                return fail(ErrorKind::JptrFail, m.as_str());
            },
        };
        let ghost all = frags_view(frags@);
        let mut cur: &Json = self;
        let mut i: usize = 0;
        while i < frags.len()
            invariant
                i <= frags.len(),
                all == frags_view(frags@),
                self@.wf() ==> descend(self@, all, i as int) == Ok::<Value, ErrorKind>(cur@)
                    && cur@.wf(),
            decreases frags.len() - i,
        {
            proof {
                if self@.wf() {
                    lemma_wf_parts(cur@);
                    lemma_child_wf(cur@, all[i as int]);
                }
            }
            match cur.index_key(frags[i].as_str()) {
                Ok(next) => {
                    cur = next;
                },
                Err(e) => {
                    proof {
                        if self@.wf() {
                            lemma_descend_stops(self@, all, i + 1, frags.len() as int);
                        }
                    }
                    return Err(e);
                },
            }
            i = i + 1;
        }
        proof {
            if self@.wf() {
                lemma_wf_parts(cur@);
            }
        }
        match cur.index_key(last.as_str()) {
            Ok(found) => match found {
                Json::__Error(e) => Err(e.clone()),
                other => Ok(other.duplicate()),
            },
            Err(e) => Err(e),
        }
    }

    /// Puts a value where a path denotes: under the key of an object, new or
    /// not, or at an index that an array has. The empty path changes nothing.
    /// After a failure the document is what it was.
    pub fn set(&mut self, path: &str, value: Json) -> (r: Result<(), Error>)
        ensures
            r is Err ==> final(self)@ == old(self)@,
            old(self)@.wf() ==> match spec_change(old(self)@, path@, true, value@) {
                Ok(v) => r is Ok && final(self)@ == v,
                Err(k) => r is Err && r->Err_0@.kind == k,
            },
            old(self)@.wf() && value@.wf() ==> final(self)@.wf(),
    {
        if path.is_empty() {
            return Ok(());
        }
        let rest = match fix_prefix(path) {
            Ok(rest) => rest,
            Err(m) => {
                return fail(ErrorKind::JptrFail, m.as_str());
            },
        };
        let (frags, last) = match fragments(rest) {
            Ok(found) => found,
            Err(m) => {
                return fail(ErrorKind::JptrFail, m.as_str());
            },
        };
        proof {
            assert(frags_view(frags@).skip(0) =~= frags_view(frags@));
            if old(self)@.wf() && value@.wf() && spec_edit(
                old(self)@,
                frags_view(frags@),
                Edit::Put(last@, value@),
            ) is Ok {
                lemma_edit_wf(old(self)@, frags_view(frags@), Edit::Put(last@, value@));
            }
        }
        edit_at(self, &frags, 0, Change::Put(last, value))
    }

    /// Takes out what a path denotes: a member of an object or an item of an
    /// array. The empty path changes nothing. After a failure the document
    /// is what it was.
    pub fn delete(&mut self, path: &str) -> (r: Result<(), Error>)
        ensures
            r is Err ==> final(self)@ == old(self)@,
            old(self)@.wf() ==> match spec_change(old(self)@, path@, false, Value::Null) {
                Ok(v) => r is Ok && final(self)@ == v,
                Err(k) => r is Err && r->Err_0@.kind == k,
            },
            old(self)@.wf() ==> final(self)@.wf(),
    {
        if path.is_empty() {
            return Ok(());
        }
        let rest = match fix_prefix(path) {
            Ok(rest) => rest,
            Err(m) => {
                return fail(ErrorKind::JptrFail, m.as_str());
            },
        };
        let (frags, last) = match fragments(rest) {
            Ok(found) => found,
            Err(m) => {
                return fail(ErrorKind::JptrFail, m.as_str());
            },
        };
        proof {
            assert(frags_view(frags@).skip(0) =~= frags_view(frags@));
            if old(self)@.wf() && spec_edit(old(self)@, frags_view(frags@), Edit::Delete(last@))
                is Ok {
                lemma_edit_wf(old(self)@, frags_view(frags@), Edit::Delete(last@));
            }
        }
        edit_at(self, &frags, 0, Change::Delete(last))
    }

    /// Appends to what a path denotes: a string to a string, or an item to
    /// an array. The empty path changes nothing. After a failure the
    /// document is what it was.
    pub fn append(&mut self, path: &str, value: Json) -> (r: Result<(), Error>)
        ensures
            r is Err ==> final(self)@ == old(self)@,
            old(self)@.wf() ==> match spec_append(old(self)@, path@, value@) {
                Ok(v) => r is Ok && final(self)@ == v,
                Err(k) => r is Err && r->Err_0@.kind == k,
            },
            old(self)@.wf() && value@.wf() ==> final(self)@.wf(),
    {
        if path.is_empty() {
            return Ok(());
        }
        let rest = match fix_prefix(path) {
            Ok(rest) => rest,
            Err(m) => {
                return fail(ErrorKind::JptrFail, m.as_str());
            },
        };
        let (frags, last) = match fragments(rest) {
            Ok(found) => found,
            Err(m) => {
                return fail(ErrorKind::JptrFail, m.as_str());
            },
        };
        let mut frags = frags;
        let ghost before = frags_view(frags@);
        let ghost key = last@;
        frags.push(last);
        proof {
            assert(frags_view(frags@) =~= before.push(key));
            assert(frags_view(frags@).skip(0) =~= frags_view(frags@));
            if old(self)@.wf() && value@.wf() && spec_edit(
                old(self)@,
                frags_view(frags@),
                Edit::Append(value@),
            ) is Ok {
                lemma_edit_wf(old(self)@, frags_view(frags@), Edit::Append(value@));
            }
        }
        edit_at(self, &frags, 0, Change::Append(value))
    }
}

/// What is under a key of a well-formed value is well formed.
pub proof fn lemma_child_wf(v: Value, key: Seq<char>)
    requires
        v.wf(),
    ensures
        child(v, key) is Ok ==> child(v, key)->Ok_0.wf(),
{
    lemma_wf_parts(v);
    match v {
        Value::Object(members) => {
            lemma_lower_bound(members, key);
        },
        _ => {},
    }
}

/// Once a fragment has led nowhere, more fragments change nothing.
pub proof fn lemma_descend_stops(v: Value, frags: Seq<Seq<char>>, m: int, n: int)
    requires
        0 <= m <= n <= frags.len(),
        descend(v, frags, m) is Err,
    ensures
        descend(v, frags, n) == descend(v, frags, m),
    decreases n - m,
{
    if m < n {
        lemma_descend_stops(v, frags, m, n - 1);
    }
}

} // verus!
