//! Values from the native types of the language.

use crate::error::{Error, ErrorKind};
use crate::json::{
    items_view,
    lemma_array_view,
    lemma_object_view,
    members_view,
    sorted,
    Json,
    Value,
};
use crate::lex::Lex;
use crate::num::Integral;
use crate::parse::{located, parse, spec_parse};
use crate::property::{upsert_object_key, Property};
use vstd::prelude::*;
use vstd::std_specs::convert::{FromSpecImpl, TryFromSpecImpl};

verus! {

impl Json {
    /// The value for a native one: a boolean, an integer, a string, a
    /// vector of values or a vector of properties.
    pub fn new<T>(value: T) -> (r: Json) where Json: From<T>
        ensures
            call_ensures(<Json as From<T>>::from, (value,), r),
    {
        Json::from(value)
    }

    /// An object with the properties given. They are put in one after the
    /// other, so that the object is sorted by key and a later property
    /// replaces an earlier one with the same key.
    pub fn from_properties(props: Vec<Property>) -> (r: Json)
        ensures
            r@ is Object,
            sorted(r@->Object_0),
            r@->Object_0 == crate::ops::upsert_all(
                Seq::empty(),
                members_view(props@),
                props.len() as int,
            ),
    {
        let ghost all = members_view(props@);
        let n = props.len();
        let mut rest = props;
        let mut rev: Vec<Property> = Vec::new();
        let mut k: usize = 0;
        while k < n
            invariant
                k <= n,
                all.len() == n,
                rest.len() == n - k,
                rev.len() == k,
                forall|j: int| 0 <= j < n - k ==> (#[trigger] rest[j])@ == all[j],
                forall|j: int| 0 <= j < k ==> (#[trigger] rev[j])@ == all[n - 1 - j],
            decreases n - k,
        {
            let p = rest.pop().unwrap();
            rev.push(p);
            k = k + 1;
        }
        let mut out: Vec<Property> = Vec::new();
        assert(members_view(out@) =~= Seq::<crate::json::Member>::empty());
        let mut i: usize = 0;
        while i < n
            invariant
                i <= n,
                all.len() == n,
                rev.len() == n - i,
                forall|j: int| 0 <= j < n - i ==> (#[trigger] rev[j])@ == all[n - 1 - j],
                members_view(out@) == crate::ops::upsert_all(Seq::empty(), all, i as int),
                sorted(members_view(out@)),
            decreases n - i,
        {
            let p = rev.pop().unwrap();
            upsert_object_key(&mut out, p);
            i = i + 1;
        }
        proof {
            lemma_object_view(out);
        }
        Json::Object(out)
    }
}

impl From<bool> for Json {
    fn from(v: bool) -> (r: Json) {
        Json::Bool(v)
    }
}

impl FromSpecImpl<bool> for Json {
    open spec fn obeys_from_spec() -> bool {
        true
    }

    open spec fn from_spec(v: bool) -> Json {
        Json::Bool(v)
    }
}

impl From<i128> for Json {
    fn from(v: i128) -> (r: Json) {
        Json::Integer(Integral::Data { value: v })
    }
}

impl FromSpecImpl<i128> for Json {
    open spec fn obeys_from_spec() -> bool {
        true
    }

    open spec fn from_spec(v: i128) -> Json {
        Json::Integer(Integral::Data { value: v })
    }
}

impl From<i64> for Json {
    fn from(v: i64) -> (r: Json) {
        Json::Integer(Integral::Data { value: v as i128 })
    }
}

impl FromSpecImpl<i64> for Json {
    open spec fn obeys_from_spec() -> bool {
        true
    }

    open spec fn from_spec(v: i64) -> Json {
        Json::Integer(Integral::Data { value: v as i128 })
    }
}

impl From<i32> for Json {
    fn from(v: i32) -> (r: Json) {
        Json::Integer(Integral::Data { value: v as i128 })
    }
}

impl FromSpecImpl<i32> for Json {
    open spec fn obeys_from_spec() -> bool {
        true
    }

    open spec fn from_spec(v: i32) -> Json {
        Json::Integer(Integral::Data { value: v as i128 })
    }
}

impl From<i16> for Json {
    fn from(v: i16) -> (r: Json) {
        Json::Integer(Integral::Data { value: v as i128 })
    }
}

impl FromSpecImpl<i16> for Json {
    open spec fn obeys_from_spec() -> bool {
        true
    }

    open spec fn from_spec(v: i16) -> Json {
        Json::Integer(Integral::Data { value: v as i128 })
    }
}

impl From<i8> for Json {
    fn from(v: i8) -> (r: Json) {
        Json::Integer(Integral::Data { value: v as i128 })
    }
}

impl FromSpecImpl<i8> for Json {
    open spec fn obeys_from_spec() -> bool {
        true
    }

    open spec fn from_spec(v: i8) -> Json {
        Json::Integer(Integral::Data { value: v as i128 })
    }
}

impl From<isize> for Json {
    fn from(v: isize) -> (r: Json) {
        Json::Integer(Integral::Data { value: v as i128 })
    }
}

impl FromSpecImpl<isize> for Json {
    open spec fn obeys_from_spec() -> bool {
        true
    }

    open spec fn from_spec(v: isize) -> Json {
        Json::Integer(Integral::Data { value: v as i128 })
    }
}

impl From<u64> for Json {
    fn from(v: u64) -> (r: Json) {
        Json::Integer(Integral::Data { value: v as i128 })
    }
}

impl FromSpecImpl<u64> for Json {
    open spec fn obeys_from_spec() -> bool {
        true
    }

    open spec fn from_spec(v: u64) -> Json {
        Json::Integer(Integral::Data { value: v as i128 })
    }
}

impl From<u32> for Json {
    fn from(v: u32) -> (r: Json) {
        Json::Integer(Integral::Data { value: v as i128 })
    }
}

impl FromSpecImpl<u32> for Json {
    open spec fn obeys_from_spec() -> bool {
        true
    }

    open spec fn from_spec(v: u32) -> Json {
        Json::Integer(Integral::Data { value: v as i128 })
    }
}

impl From<u16> for Json {
    fn from(v: u16) -> (r: Json) {
        Json::Integer(Integral::Data { value: v as i128 })
    }
}

impl FromSpecImpl<u16> for Json {
    open spec fn obeys_from_spec() -> bool {
        true
    }

    open spec fn from_spec(v: u16) -> Json {
        Json::Integer(Integral::Data { value: v as i128 })
    }
}

impl From<u8> for Json {
    fn from(v: u8) -> (r: Json) {
        Json::Integer(Integral::Data { value: v as i128 })
    }
}

impl FromSpecImpl<u8> for Json {
    open spec fn obeys_from_spec() -> bool {
        true
    }

    open spec fn from_spec(v: u8) -> Json {
        Json::Integer(Integral::Data { value: v as i128 })
    }
}

impl From<usize> for Json {
    fn from(v: usize) -> (r: Json) {
        Json::Integer(Integral::Data { value: v as i128 })
    }
}

impl FromSpecImpl<usize> for Json {
    open spec fn obeys_from_spec() -> bool {
        true
    }

    open spec fn from_spec(v: usize) -> Json {
        Json::Integer(Integral::Data { value: v as i128 })
    }
}

impl From<String> for Json {
    fn from(v: String) -> (r: Json) {
        Json::String(v)
    }
}

impl FromSpecImpl<String> for Json {
    open spec fn obeys_from_spec() -> bool {
        true
    }

    open spec fn from_spec(v: String) -> Json {
        Json::String(v)
    }
}

impl From<&str> for Json {
    fn from(v: &str) -> (r: Json)
        ensures
            r@ == Value::String(v@),
    {
        Json::String(v.to_owned())
    }
}

impl FromSpecImpl<&str> for Json {
    /// What the conversion gives is stated on the conversion itself.
    open spec fn obeys_from_spec() -> bool {
        false
    }

    open spec fn from_spec(v: &str) -> Json {
        Json::Null
    }
}

impl From<Vec<Json>> for Json {
    fn from(v: Vec<Json>) -> (r: Json) {
        Json::Array(v)
    }
}

impl FromSpecImpl<Vec<Json>> for Json {
    open spec fn obeys_from_spec() -> bool {
        true
    }

    open spec fn from_spec(v: Vec<Json>) -> Json {
        Json::Array(v)
    }
}

impl From<Vec<Property>> for Json {
    fn from(v: Vec<Property>) -> (r: Json)
        ensures
            r@ is Object,
            sorted(r@->Object_0),
            r@->Object_0 == crate::ops::upsert_all(Seq::empty(), members_view(v@), v.len() as int),
    {
        Json::from_properties(v)
    }
}

impl FromSpecImpl<Vec<Property>> for Json {
    /// What the conversion gives is stated on the conversion itself.
    open spec fn obeys_from_spec() -> bool {
        false
    }

    open spec fn from_spec(v: Vec<Property>) -> Json {
        Json::Null
    }
}

impl Default for Json {
    fn default() -> (r: Json)
        ensures
            r@ == Value::Null,
    {
        Json::Null
    }
}

impl core::str::FromStr for Json {
    type Err = Error;

    /// Parses a text as [`parse`] does: white space, then one value; what
    /// follows the value is not looked at.
    fn from_str(text: &str) -> (r: Result<Json, Error>)
        ensures
            match r {
                Ok(v) => spec_parse(text@) == Ok::<Value, ErrorKind>(v@) && v@.wf() && v@.plain(),
                Err(e) => spec_parse(text@) == Err::<Value, ErrorKind>(e@.kind) && e@.origin
                    == "parse"@ && located(e@.message, Lex { off: 0, row: 1, col: 1 }, text@),
            },
    {
        parse(text)
    }
}

/// The integer of a value, if it is one from `lo` to `hi`: an integer
/// outside that range is an invalid number, anything else has the wrong
/// type.
pub open spec fn spec_integer_in(v: Value, lo: int, hi: int) -> Result<int, ErrorKind> {
    match v {
        Value::Integer(c) => match c.value() {
            Some(n) => if lo <= n <= hi {
                Ok(n)
            } else {
                Err(ErrorKind::InvalidNumber)
            },
            None => Err(ErrorKind::InvalidType),
        },
        _ => Err(ErrorKind::InvalidType),
    }
}

impl Json {
    /// The integer of the value, if it is one from `lo` to `hi`.
    pub fn integer_in(&self, lo: i128, hi: i128) -> (r: Result<i128, Error>)
        ensures
            match r {
                Ok(n) => spec_integer_in(self@, lo as int, hi as int) == Ok::<int, ErrorKind>(
                    n as int,
                ),
                Err(e) => spec_integer_in(self@, lo as int, hi as int) == Err::<int, ErrorKind>(
                    e@.kind,
                ),
            },
    {
        match self.to_integer() {
            Some(n) => {
                if lo <= n && n <= hi {
                    Ok(n)
                } else {
                    Err(Error::make(ErrorKind::InvalidNumber, "json", "out of range"))
                }
            },
            None => Err(Error::make(ErrorKind::InvalidType, "json", self.typename().as_str())),
        }
    }
}

impl TryFrom<Json> for u8 {
    type Error = Error;

    fn try_from(val: Json) -> (r: Result<u8, Error>)
        ensures
            match r {
                Ok(n) => spec_integer_in(val@, 0, u8::MAX as int)
                    == Ok::<int, ErrorKind>(n as int),
                Err(e) => spec_integer_in(val@, 0, u8::MAX as int)
                    == Err::<int, ErrorKind>(e@.kind),
            },
    {
        match val.integer_in(0, u8::MAX as i128) {
            Ok(n) => Ok(n as u8),
            Err(e) => Err(e),
        }
    }
}

impl TryFromSpecImpl<Json> for u8 {
    /// What the conversion gives is stated on the conversion itself.
    open spec fn obeys_try_from_spec() -> bool {
        false
    }

    open spec fn try_from_spec(v: Json) -> Result<u8, Error> {
        Ok(0)
    }
}

impl TryFrom<Json> for i8 {
    type Error = Error;

    fn try_from(val: Json) -> (r: Result<i8, Error>)
        ensures
            match r {
                Ok(n) => spec_integer_in(val@, i8::MIN as int, i8::MAX as int)
                    == Ok::<int, ErrorKind>(n as int),
                Err(e) => spec_integer_in(val@, i8::MIN as int, i8::MAX as int)
                    == Err::<int, ErrorKind>(e@.kind),
            },
    {
        match val.integer_in(i8::MIN as i128, i8::MAX as i128) {
            Ok(n) => Ok(n as i8),
            Err(e) => Err(e),
        }
    }
}

impl TryFromSpecImpl<Json> for i8 {
    /// What the conversion gives is stated on the conversion itself.
    open spec fn obeys_try_from_spec() -> bool {
        false
    }

    open spec fn try_from_spec(v: Json) -> Result<i8, Error> {
        Ok(0)
    }
}

impl TryFrom<Json> for u16 {
    type Error = Error;

    fn try_from(val: Json) -> (r: Result<u16, Error>)
        ensures
            match r {
                Ok(n) => spec_integer_in(val@, 0, u16::MAX as int)
                    == Ok::<int, ErrorKind>(n as int),
                Err(e) => spec_integer_in(val@, 0, u16::MAX as int)
                    == Err::<int, ErrorKind>(e@.kind),
            },
    {
        match val.integer_in(0, u16::MAX as i128) {
            Ok(n) => Ok(n as u16),
            Err(e) => Err(e),
        }
    }
}

impl TryFromSpecImpl<Json> for u16 {
    /// What the conversion gives is stated on the conversion itself.
    open spec fn obeys_try_from_spec() -> bool {
        false
    }

    open spec fn try_from_spec(v: Json) -> Result<u16, Error> {
        Ok(0)
    }
}

impl TryFrom<Json> for i16 {
    type Error = Error;

    fn try_from(val: Json) -> (r: Result<i16, Error>)
        ensures
            match r {
                Ok(n) => spec_integer_in(val@, i16::MIN as int, i16::MAX as int)
                    == Ok::<int, ErrorKind>(n as int),
                Err(e) => spec_integer_in(val@, i16::MIN as int, i16::MAX as int)
                    == Err::<int, ErrorKind>(e@.kind),
            },
    {
        match val.integer_in(i16::MIN as i128, i16::MAX as i128) {
            Ok(n) => Ok(n as i16),
            Err(e) => Err(e),
        }
    }
}

impl TryFromSpecImpl<Json> for i16 {
    /// What the conversion gives is stated on the conversion itself.
    open spec fn obeys_try_from_spec() -> bool {
        false
    }

    open spec fn try_from_spec(v: Json) -> Result<i16, Error> {
        Ok(0)
    }
}

impl TryFrom<Json> for u32 {
    type Error = Error;

    fn try_from(val: Json) -> (r: Result<u32, Error>)
        ensures
            match r {
                Ok(n) => spec_integer_in(val@, 0, u32::MAX as int)
                    == Ok::<int, ErrorKind>(n as int),
                Err(e) => spec_integer_in(val@, 0, u32::MAX as int)
                    == Err::<int, ErrorKind>(e@.kind),
            },
    {
        match val.integer_in(0, u32::MAX as i128) {
            Ok(n) => Ok(n as u32),
            Err(e) => Err(e),
        }
    }
}

impl TryFromSpecImpl<Json> for u32 {
    /// What the conversion gives is stated on the conversion itself.
    open spec fn obeys_try_from_spec() -> bool {
        false
    }

    open spec fn try_from_spec(v: Json) -> Result<u32, Error> {
        Ok(0)
    }
}

impl TryFrom<Json> for i32 {
    type Error = Error;

    fn try_from(val: Json) -> (r: Result<i32, Error>)
        ensures
            match r {
                Ok(n) => spec_integer_in(val@, i32::MIN as int, i32::MAX as int)
                    == Ok::<int, ErrorKind>(n as int),
                Err(e) => spec_integer_in(val@, i32::MIN as int, i32::MAX as int)
                    == Err::<int, ErrorKind>(e@.kind),
            },
    {
        match val.integer_in(i32::MIN as i128, i32::MAX as i128) {
            Ok(n) => Ok(n as i32),
            Err(e) => Err(e),
        }
    }
}

impl TryFromSpecImpl<Json> for i32 {
    /// What the conversion gives is stated on the conversion itself.
    open spec fn obeys_try_from_spec() -> bool {
        false
    }

    open spec fn try_from_spec(v: Json) -> Result<i32, Error> {
        Ok(0)
    }
}

impl TryFrom<Json> for u64 {
    type Error = Error;

    fn try_from(val: Json) -> (r: Result<u64, Error>)
        ensures
            match r {
                Ok(n) => spec_integer_in(val@, 0, u64::MAX as int)
                    == Ok::<int, ErrorKind>(n as int),
                Err(e) => spec_integer_in(val@, 0, u64::MAX as int)
                    == Err::<int, ErrorKind>(e@.kind),
            },
    {
        match val.integer_in(0, u64::MAX as i128) {
            Ok(n) => Ok(n as u64),
            Err(e) => Err(e),
        }
    }
}

impl TryFromSpecImpl<Json> for u64 {
    /// What the conversion gives is stated on the conversion itself.
    open spec fn obeys_try_from_spec() -> bool {
        false
    }

    open spec fn try_from_spec(v: Json) -> Result<u64, Error> {
        Ok(0)
    }
}

impl TryFrom<Json> for i64 {
    type Error = Error;

    fn try_from(val: Json) -> (r: Result<i64, Error>)
        ensures
            match r {
                Ok(n) => spec_integer_in(val@, i64::MIN as int, i64::MAX as int)
                    == Ok::<int, ErrorKind>(n as int),
                Err(e) => spec_integer_in(val@, i64::MIN as int, i64::MAX as int)
                    == Err::<int, ErrorKind>(e@.kind),
            },
    {
        match val.integer_in(i64::MIN as i128, i64::MAX as i128) {
            Ok(n) => Ok(n as i64),
            Err(e) => Err(e),
        }
    }
}

impl TryFromSpecImpl<Json> for i64 {
    /// What the conversion gives is stated on the conversion itself.
    open spec fn obeys_try_from_spec() -> bool {
        false
    }

    open spec fn try_from_spec(v: Json) -> Result<i64, Error> {
        Ok(0)
    }
}

impl TryFrom<Json> for usize {
    type Error = Error;

    fn try_from(val: Json) -> (r: Result<usize, Error>)
        ensures
            match r {
                Ok(n) => spec_integer_in(val@, 0, usize::MAX as int)
                    == Ok::<int, ErrorKind>(n as int),
                Err(e) => spec_integer_in(val@, 0, usize::MAX as int)
                    == Err::<int, ErrorKind>(e@.kind),
            },
    {
        match val.integer_in(0, usize::MAX as i128) {
            Ok(n) => Ok(n as usize),
            Err(e) => Err(e),
        }
    }
}

impl TryFromSpecImpl<Json> for usize {
    /// What the conversion gives is stated on the conversion itself.
    open spec fn obeys_try_from_spec() -> bool {
        false
    }

    open spec fn try_from_spec(v: Json) -> Result<usize, Error> {
        Ok(0)
    }
}

impl TryFrom<Json> for isize {
    type Error = Error;

    fn try_from(val: Json) -> (r: Result<isize, Error>)
        ensures
            match r {
                Ok(n) => spec_integer_in(val@, isize::MIN as int, isize::MAX as int)
                    == Ok::<int, ErrorKind>(n as int),
                Err(e) => spec_integer_in(val@, isize::MIN as int, isize::MAX as int)
                    == Err::<int, ErrorKind>(e@.kind),
            },
    {
        match val.integer_in(isize::MIN as i128, isize::MAX as i128) {
            Ok(n) => Ok(n as isize),
            Err(e) => Err(e),
        }
    }
}

impl TryFromSpecImpl<Json> for isize {
    /// What the conversion gives is stated on the conversion itself.
    open spec fn obeys_try_from_spec() -> bool {
        false
    }

    open spec fn try_from_spec(v: Json) -> Result<isize, Error> {
        Ok(0)
    }
}

impl TryFrom<Json> for u128 {
    type Error = Error;

    fn try_from(val: Json) -> (r: Result<u128, Error>)
        ensures
            match r {
                Ok(n) => spec_integer_in(val@, 0, i128::MAX as int)
                    == Ok::<int, ErrorKind>(n as int),
                Err(e) => spec_integer_in(val@, 0, i128::MAX as int)
                    == Err::<int, ErrorKind>(e@.kind),
            },
    {
        match val.integer_in(0, i128::MAX) {
            Ok(n) => Ok(n as u128),
            Err(e) => Err(e),
        }
    }
}

impl TryFromSpecImpl<Json> for u128 {
    /// What the conversion gives is stated on the conversion itself.
    open spec fn obeys_try_from_spec() -> bool {
        false
    }

    open spec fn try_from_spec(v: Json) -> Result<u128, Error> {
        Ok(0)
    }
}

impl TryFrom<Json> for i128 {
    type Error = Error;

    fn try_from(val: Json) -> (r: Result<i128, Error>)
        ensures
            match r {
                Ok(n) => spec_integer_in(val@, i128::MIN as int, i128::MAX as int)
                    == Ok::<int, ErrorKind>(n as int),
                Err(e) => spec_integer_in(val@, i128::MIN as int, i128::MAX as int)
                    == Err::<int, ErrorKind>(e@.kind),
            },
    {
        match val.integer_in(i128::MIN, i128::MAX) {
            Ok(n) => Ok(n),
            Err(e) => Err(e),
        }
    }
}

impl TryFromSpecImpl<Json> for i128 {
    /// What the conversion gives is stated on the conversion itself.
    open spec fn obeys_try_from_spec() -> bool {
        false
    }

    open spec fn try_from_spec(v: Json) -> Result<i128, Error> {
        Ok(0)
    }
}

impl TryFrom<Json> for String {
    type Error = Error;

    fn try_from(val: Json) -> (r: Result<String, Error>)
        ensures
            match val@ {
                Value::String(s) => r is Ok && r->Ok_0@ == s,
                _ => r is Err && r->Err_0@.kind == ErrorKind::InvalidType,
            },
    {
        match val {
            Json::String(s) => Ok(s),
            other => Err(Error::make(ErrorKind::InvalidType, "json", other.typename().as_str())),
        }
    }
}

impl TryFromSpecImpl<Json> for String {
    /// What the conversion gives is stated on the conversion itself.
    open spec fn obeys_try_from_spec() -> bool {
        false
    }

    open spec fn try_from_spec(v: Json) -> Result<String, Error> {
        Err(arbitrary())
    }
}

impl TryFrom<Json> for Vec<Property> {
    type Error = Error;

    fn try_from(val: Json) -> (r: Result<Vec<Property>, Error>)
        ensures
            match val@ {
                Value::Object(members) => r is Ok && members_view(r->Ok_0@) == members,
                _ => r is Err && r->Err_0@.kind == ErrorKind::InvalidType,
            },
    {
        match val {
            Json::Object(props) => {
                proof {
                    lemma_object_view(props);
                }
                Ok(props)
            },
            other => Err(Error::make(ErrorKind::InvalidType, "json", other.typename().as_str())),
        }
    }
}

impl TryFromSpecImpl<Json> for Vec<Property> {
    /// What the conversion gives is stated on the conversion itself.
    open spec fn obeys_try_from_spec() -> bool {
        false
    }

    open spec fn try_from_spec(v: Json) -> Result<Vec<Property>, Error> {
        Err(arbitrary())
    }
}

impl TryFrom<Json> for Vec<Json> {
    type Error = Error;

    fn try_from(val: Json) -> (r: Result<Vec<Json>, Error>)
        ensures
            match val@ {
                Value::Array(items) => r is Ok && items_view(r->Ok_0@) == items,
                _ => r is Err && r->Err_0@.kind == ErrorKind::InvalidType,
            },
    {
        match val {
            Json::Array(items) => {
                proof {
                    lemma_array_view(items);
                }
                Ok(items)
            },
            other => Err(Error::make(ErrorKind::InvalidType, "json", other.typename().as_str())),
        }
    }
}

impl TryFromSpecImpl<Json> for Vec<Json> {
    /// What the conversion gives is stated on the conversion itself.
    open spec fn obeys_try_from_spec() -> bool {
        false
    }

    open spec fn try_from_spec(v: Json) -> Result<Vec<Json>, Error> {
        Err(arbitrary())
    }
}

} // verus!
