use std::collections::HashMap;
use vstd::prelude::*;

verus! {

/// A wrapper around a `HashMap` whose forgiving decoder skips every entry
/// that does not decode to a key of type `K` and a value of type `V`.
#[derive(Debug, Clone)]
pub struct SkippableMap<K, V>(pub HashMap<K, V>);

impl<K, V> View for SkippableMap<K, V> {
    type V = Map<K, V>;

    open spec fn view(&self) -> Map<K, V> {
        self.0@
    }
}

impl<K, V> SkippableMap<K, V> {
    /// Consumes the wrapper and hands back the underlying map.
    pub fn inner(self) -> (r: HashMap<K, V>)
        ensures
            r@ == self@,
    {
        self.0
    }
}

impl<K, V> Default for SkippableMap<K, V> {
    fn default() -> (r: Self)
        ensures
            r@ == Map::<K, V>::empty(),
    {
        SkippableMap(HashMap::new())
    }
}

impl<K, V> AsRef<HashMap<K, V>> for SkippableMap<K, V> {
    fn as_ref(&self) -> (r: &HashMap<K, V>)
        ensures
            r@ == self@,
    {
        &self.0
    }
}

impl<K, V> From<SkippableMap<K, V>> for HashMap<K, V> {
    fn from(value: SkippableMap<K, V>) -> (r: HashMap<K, V>) {
        value.0
    }
}

impl<K, V> vstd::std_specs::convert::FromSpecImpl<SkippableMap<K, V>> for HashMap<K, V> {
    open spec fn obeys_from_spec() -> bool {
        true
    }

    open spec fn from_spec(v: SkippableMap<K, V>) -> HashMap<K, V> {
        v.0
    }
}

} // verus!
