//! Building values and array keys from native ones: booleans, integers, byte
//! strings and text, optional values, lists and lists of pairs.

use vstd::prelude::*;
use vstd::std_specs::convert::{FromSpecImpl, IntoSpec};
use vstd::string::StringSliceAdditionalSpecFns;

use crate::value::{ArrayEntry, ArrayKey, ArrayKeyView, Value, ValueView};

verus! {

impl<'a> From<bool> for Value<'a> {
    fn from(value: bool) -> (v: Value<'a>) {
        Value::Boolean(value)
    }
}

impl<'a> FromSpecImpl<bool> for Value<'a> {
    open spec fn obeys_from_spec() -> bool {
        true
    }

    open spec fn from_spec(value: bool) -> Value<'a> {
        Value::Boolean(value)
    }
}

impl<'a> From<u8> for Value<'a> {
    fn from(value: u8) -> (v: Value<'a>) {
        Value::Integer(value as i64)
    }
}

impl<'a> FromSpecImpl<u8> for Value<'a> {
    open spec fn obeys_from_spec() -> bool {
        true
    }

    open spec fn from_spec(value: u8) -> Value<'a> {
        Value::Integer(value as i64)
    }
}

impl<'a> From<u16> for Value<'a> {
    fn from(value: u16) -> (v: Value<'a>) {
        Value::Integer(value as i64)
    }
}

impl<'a> FromSpecImpl<u16> for Value<'a> {
    open spec fn obeys_from_spec() -> bool {
        true
    }

    open spec fn from_spec(value: u16) -> Value<'a> {
        Value::Integer(value as i64)
    }
}

impl<'a> From<u32> for Value<'a> {
    fn from(value: u32) -> (v: Value<'a>) {
        Value::Integer(value as i64)
    }
}

impl<'a> FromSpecImpl<u32> for Value<'a> {
    open spec fn obeys_from_spec() -> bool {
        true
    }

    open spec fn from_spec(value: u32) -> Value<'a> {
        Value::Integer(value as i64)
    }
}

impl<'a> From<i8> for Value<'a> {
    fn from(value: i8) -> (v: Value<'a>) {
        Value::Integer(value as i64)
    }
}

impl<'a> FromSpecImpl<i8> for Value<'a> {
    open spec fn obeys_from_spec() -> bool {
        true
    }

    open spec fn from_spec(value: i8) -> Value<'a> {
        Value::Integer(value as i64)
    }
}

impl<'a> From<i16> for Value<'a> {
    fn from(value: i16) -> (v: Value<'a>) {
        Value::Integer(value as i64)
    }
}

impl<'a> FromSpecImpl<i16> for Value<'a> {
    open spec fn obeys_from_spec() -> bool {
        true
    }

    open spec fn from_spec(value: i16) -> Value<'a> {
        Value::Integer(value as i64)
    }
}

impl<'a> From<i32> for Value<'a> {
    fn from(value: i32) -> (v: Value<'a>) {
        Value::Integer(value as i64)
    }
}

impl<'a> FromSpecImpl<i32> for Value<'a> {
    open spec fn obeys_from_spec() -> bool {
        true
    }

    open spec fn from_spec(value: i32) -> Value<'a> {
        Value::Integer(value as i64)
    }
}

impl<'a> From<i64> for Value<'a> {
    fn from(value: i64) -> (v: Value<'a>) {
        Value::Integer(value)
    }
}

impl<'a> FromSpecImpl<i64> for Value<'a> {
    open spec fn obeys_from_spec() -> bool {
        true
    }

    open spec fn from_spec(value: i64) -> Value<'a> {
        Value::Integer(value)
    }
}

impl<'a> From<&'a [u8]> for Value<'a> {
    fn from(value: &'a [u8]) -> (v: Value<'a>) {
        Value::String(value)
    }
}

impl<'a> FromSpecImpl<&'a [u8]> for Value<'a> {
    open spec fn obeys_from_spec() -> bool {
        true
    }

    open spec fn from_spec(value: &'a [u8]) -> Value<'a> {
        Value::String(value)
    }
}

/// Text becomes the string of its UTF-8 bytes.
impl<'a> From<&'a str> for Value<'a> {
    fn from(value: &'a str) -> (v: Value<'a>)
        ensures
            v@ == ValueView::String(value.spec_bytes()),
    {
        Value::String(value.as_bytes())
    }
}

impl<'a> FromSpecImpl<&'a str> for Value<'a> {
    open spec fn obeys_from_spec() -> bool {
        false
    }

    open spec fn from_spec(value: &'a str) -> Value<'a> {
        arbitrary()
    }
}

/// A value that is there is converted; one that is missing becomes null.
impl<'a, T> From<Option<T>> for Value<'a> where T: Into<Value<'a>> {
    fn from(value: Option<T>) -> (v: Value<'a>) {
        match value {
            Some(value) => value.into(),
            None => Value::Null,
        }
    }
}

impl<'a, T> FromSpecImpl<Option<T>> for Value<'a> where T: Into<Value<'a>> {
    open spec fn obeys_from_spec() -> bool {
        T::obeys_into_spec()
    }

    open spec fn from_spec(value: Option<T>) -> Value<'a> {
        match value {
            Some(value) => value.into_spec(),
            None => Value::Null,
        }
    }
}

impl<'a> From<u8> for ArrayKey<'a> {
    fn from(value: u8) -> (key: ArrayKey<'a>) {
        ArrayKey::Integer(value as i64)
    }
}

impl<'a> FromSpecImpl<u8> for ArrayKey<'a> {
    open spec fn obeys_from_spec() -> bool {
        true
    }

    open spec fn from_spec(value: u8) -> ArrayKey<'a> {
        ArrayKey::Integer(value as i64)
    }
}

impl<'a> From<u16> for ArrayKey<'a> {
    fn from(value: u16) -> (key: ArrayKey<'a>) {
        ArrayKey::Integer(value as i64)
    }
}

impl<'a> FromSpecImpl<u16> for ArrayKey<'a> {
    open spec fn obeys_from_spec() -> bool {
        true
    }

    open spec fn from_spec(value: u16) -> ArrayKey<'a> {
        ArrayKey::Integer(value as i64)
    }
}

impl<'a> From<u32> for ArrayKey<'a> {
    fn from(value: u32) -> (key: ArrayKey<'a>) {
        ArrayKey::Integer(value as i64)
    }
}

impl<'a> FromSpecImpl<u32> for ArrayKey<'a> {
    open spec fn obeys_from_spec() -> bool {
        true
    }

    open spec fn from_spec(value: u32) -> ArrayKey<'a> {
        ArrayKey::Integer(value as i64)
    }
}

impl<'a> From<i8> for ArrayKey<'a> {
    fn from(value: i8) -> (key: ArrayKey<'a>) {
        ArrayKey::Integer(value as i64)
    }
}

impl<'a> FromSpecImpl<i8> for ArrayKey<'a> {
    open spec fn obeys_from_spec() -> bool {
        true
    }

    open spec fn from_spec(value: i8) -> ArrayKey<'a> {
        ArrayKey::Integer(value as i64)
    }
}

impl<'a> From<i16> for ArrayKey<'a> {
    fn from(value: i16) -> (key: ArrayKey<'a>) {
        ArrayKey::Integer(value as i64)
    }
}

impl<'a> FromSpecImpl<i16> for ArrayKey<'a> {
    open spec fn obeys_from_spec() -> bool {
        true
    }

    open spec fn from_spec(value: i16) -> ArrayKey<'a> {
        ArrayKey::Integer(value as i64)
    }
}

impl<'a> From<i32> for ArrayKey<'a> {
    fn from(value: i32) -> (key: ArrayKey<'a>) {
        ArrayKey::Integer(value as i64)
    }
}

impl<'a> FromSpecImpl<i32> for ArrayKey<'a> {
    open spec fn obeys_from_spec() -> bool {
        true
    }

    open spec fn from_spec(value: i32) -> ArrayKey<'a> {
        ArrayKey::Integer(value as i64)
    }
}

impl<'a> From<i64> for ArrayKey<'a> {
    fn from(value: i64) -> (key: ArrayKey<'a>) {
        ArrayKey::Integer(value)
    }
}

impl<'a> FromSpecImpl<i64> for ArrayKey<'a> {
    open spec fn obeys_from_spec() -> bool {
        true
    }

    open spec fn from_spec(value: i64) -> ArrayKey<'a> {
        ArrayKey::Integer(value)
    }
}

impl<'a> From<&'a [u8]> for ArrayKey<'a> {
    fn from(value: &'a [u8]) -> (key: ArrayKey<'a>) {
        ArrayKey::String(value)
    }
}

impl<'a> FromSpecImpl<&'a [u8]> for ArrayKey<'a> {
    open spec fn obeys_from_spec() -> bool {
        true
    }

    open spec fn from_spec(value: &'a [u8]) -> ArrayKey<'a> {
        ArrayKey::String(value)
    }
}

/// Text becomes the key of its UTF-8 bytes.
impl<'a> From<&'a str> for ArrayKey<'a> {
    fn from(value: &'a str) -> (key: ArrayKey<'a>)
        ensures
            key@ == ArrayKeyView::String(value.spec_bytes()),
    {
        ArrayKey::String(value.as_bytes())
    }
}

impl<'a> FromSpecImpl<&'a str> for ArrayKey<'a> {
    open spec fn obeys_from_spec() -> bool {
        false
    }

    open spec fn from_spec(value: &'a str) -> ArrayKey<'a> {
        arbitrary()
    }
}

/// The key that a list gives to its item at `position`: the position
/// itself. A list with more items than a key can count gives all those
/// beyond the same, largest key.
pub open spec fn list_key(position: int) -> i64 {
    if position <= i64::MAX {
        position as i64
    } else {
        i64::MAX
    }
}

/// A list becomes the array of its items, converted, under their positions
/// as keys.
impl<'a, V> From<Vec<V>> for Value<'a> where V: Into<Value<'a>> {
    fn from(value: Vec<V>) -> (v: Value<'a>)
        ensures
            v matches Value::Array(entries) && entries@.len() == value@.len() && forall|i: int|
                0 <= i < entries@.len() ==> (#[trigger] entries@[i]).key == ArrayKey::<'a>::Integer(
                    list_key(i),
                ) && (V::obeys_into_spec() ==> entries@[i].value == value@[i].into_spec()),
    {
        let ghost items = value@;
        let total = value.len();
        let mut entries: Vec<ArrayEntry<'a>> = Vec::new();
        let mut position: usize = 0;
        for item in iter: value.into_iter()
            invariant
                iter.seq() == items,
                items.len() == total,
                position == iter.index(),
                entries@.len() == position,
                forall|i: int|
                    0 <= i < entries@.len() ==> (#[trigger] entries@[i]).key == ArrayKey::<'a>::Integer(
                        list_key(i),
                    ) && (V::obeys_into_spec() ==> entries@[i].value == items[i].into_spec()),
        {
            let key: i64 = if position as u64 <= 0x7fff_ffff_ffff_ffffu64 {
                position as i64
            } else {
                i64::MAX
            };
            entries.push(ArrayEntry { key: ArrayKey::Integer(key), value: item.into() });
            position += 1;
        }
        Value::Array(entries)
    }
}

impl<'a, V> FromSpecImpl<Vec<V>> for Value<'a> where V: Into<Value<'a>> {
    open spec fn obeys_from_spec() -> bool {
        false
    }

    open spec fn from_spec(value: Vec<V>) -> Value<'a> {
        arbitrary()
    }
}

/// A list of pairs becomes the array of those pairs, key and value
/// converted, in the order of the list.
impl<'a, K, V> From<Vec<(K, V)>> for Value<'a> where K: Into<ArrayKey<'a>>, V: Into<Value<'a>> {
    fn from(value: Vec<(K, V)>) -> (v: Value<'a>)
        ensures
            v matches Value::Array(entries) && entries@.len() == value@.len() && forall|i: int|
                0 <= i < entries@.len() ==> (K::obeys_into_spec() ==> (#[trigger] entries@[i]).key
                    == value@[i].0.into_spec()) && (V::obeys_into_spec() ==> entries@[i].value
                    == value@[i].1.into_spec()),
    {
        let ghost items = value@;
        let mut entries: Vec<ArrayEntry<'a>> = Vec::new();
        for item in iter: value.into_iter()
            invariant
                iter.seq() == items,
                entries@.len() == iter.index(),
                forall|i: int|
                    0 <= i < entries@.len() ==> (K::obeys_into_spec() ==> (#[trigger] entries@[i]).key
                        == items[i].0.into_spec()) && (V::obeys_into_spec() ==> entries@[i].value
                        == items[i].1.into_spec()),
        {
            let (key, value) = item;
            entries.push(ArrayEntry { key: key.into(), value: value.into() });
        }
        Value::Array(entries)
    }
}

impl<'a, K, V> FromSpecImpl<Vec<(K, V)>> for Value<'a> where K: Into<ArrayKey<'a>>, V: Into<Value<'a>> {
    open spec fn obeys_from_spec() -> bool {
        false
    }

    open spec fn from_spec(value: Vec<(K, V)>) -> Value<'a> {
        arbitrary()
    }
}

} // verus!
