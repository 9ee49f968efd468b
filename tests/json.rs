use serde::de::{Deserialize, Deserializer, IgnoredAny, MapAccess, Visitor};
use skippable_map::{expecting, NextEntry, SkippableMap, SkippableMapVisitor, Visit};
use std::collections::HashMap;
use std::fmt;
use std::hash::Hash;
use std::marker::PhantomData;

struct Tolerant<K, V>(SkippableMap<K, V>);

struct TolerantVisitor<K, V>(PhantomData<fn() -> (K, V)>);

fn pull<'de, A, K, V>(access: &mut A) -> NextEntry<K, V, A::Error>
where
    A: MapAccess<'de>,
    K: Deserialize<'de>,
    V: Deserialize<'de>,
{
    match access.next_key::<K>() {
        Ok(None) => NextEntry::End,
        Ok(Some(k)) => NextEntry::from_value(k, access.next_value::<V>()),
        Err(e) => NextEntry::after_bad_key(e, access.next_value::<IgnoredAny>()),
    }
}

impl<'de, K, V> Visitor<'de> for TolerantVisitor<K, V>
where
    K: Deserialize<'de> + Eq + Hash,
    V: Deserialize<'de>,
{
    type Value = Tolerant<K, V>;

    fn expecting(&self, f: &mut fmt::Formatter) -> fmt::Result {
        f.write_str(&expecting("String", "u64"))
    }

    fn visit_map<A: MapAccess<'de>>(self, mut access: A) -> Result<Self::Value, A::Error> {
        let mut state = SkippableMapVisitor::with_size_hint(access.size_hint());
        loop {
            match state.visit_entry(pull(&mut access)) {
                Visit::Continue(next) => state = next,
                Visit::Done(map) => return Ok(Tolerant(map)),
                Visit::Failed(e) => return Err(e),
            }
        }
    }
}

impl<'de, K, V> Deserialize<'de> for Tolerant<K, V>
where
    K: Deserialize<'de> + Eq + Hash,
    V: Deserialize<'de>,
{
    fn deserialize<D: Deserializer<'de>>(deserializer: D) -> Result<Self, D::Error> {
        deserializer.deserialize_map(TolerantVisitor(PhantomData))
    }
}

fn decode_json(json: &str) -> Result<HashMap<String, u64>, serde_json::Error> {
    serde_json::from_str::<Tolerant<String, u64>>(json).map(|t| t.0.inner())
}

#[test]
fn json_skips_entries_that_are_not_numbers() {
    let json = r#"{ "string": "b", "number": 1, "other_number": 2, "negative_number": -44}"#;
    let hm = HashMap::from([(String::from("number"), 1_u64), (String::from("other_number"), 2_u64)]);
    assert_eq!(decode_json(json).unwrap(), hm);
}

#[test]
fn json_list_is_a_type_mismatch() {
    let err = decode_json("[1, 2, 3]").unwrap_err();
    let text = err.to_string();
    assert!(text.contains("a data structure which contains some mappings from"), "{}", text);
    assert!(text.contains("from String to u64"), "{}", text);
}

#[test]
fn json_truncated_input_fails() {
    assert!(decode_json(r#"{ "a": 1, "b""#).is_err());
    assert!(decode_json(r#"{ "a": 1,"#).is_err());
    assert!(decode_json(r#"{ "a": "x""#).is_err());
}

#[test]
fn json_empty_object_is_an_empty_map() {
    assert!(decode_json("{}").unwrap().is_empty());
}

#[test]
fn json_later_duplicate_key_wins() {
    let m = decode_json(r#"{"a": 1, "b": "no", "a": 5}"#).unwrap();
    assert_eq!(m, HashMap::from([(String::from("a"), 5_u64)]));
}

#[test]
fn json_skips_null_and_booleans() {
    let m = decode_json(r#"{"a": null, "b": true, "c": false, "d": 4}"#).unwrap();
    assert_eq!(m, HashMap::from([(String::from("d"), 4_u64)]));
}
