use crate::map::SkippableMap;
use std::collections::HashMap;
use std::hash::Hash;
use vstd::prelude::*;
use vstd::std_specs::hash::obeys_key_model;
use vstd::string::StringExecFns;

verus! {

broadcast use vstd::std_specs::hash::group_hash_axioms;

/// The most entries that a size hint may have the decoder reserve room for:
/// a hint comes from the input and may be wrong, so a large one is not
/// trusted with an allocation.
pub const MAX_RESERVED_ENTRIES: usize = 4096;

/// The outcome of asking a map-shaped input for its next entry.
pub enum NextEntry<K, V, E> {
    /// An entry whose key and value both decoded.
    Entry(K, V),
    /// An entry that did not decode: its key or its value failed, or it was
    /// not a key/value pair at all.
    Rejected,
    /// The input holds no more entries.
    End,
    /// The input itself is malformed, past telling one entry from the next.
    Fatal(E),
}

impl<K, V, E> NextEntry<K, V, E> {
    /// The outcome of an entry whose key decoded, given what decoding its
    /// value gave: the entry if the value decoded, else a rejected entry.
    pub fn from_value<X>(key: K, value: Result<V, X>) -> (r: Self)
        ensures
            match value {
                Ok(v) => r == NextEntry::<K, V, E>::Entry(key, v),
                Err(_) => r is Rejected,
            },
    {
        match value {
            Ok(v) => NextEntry::Entry(key, v),
            Err(_) => NextEntry::Rejected,
        }
    }

    /// The outcome of an entry whose key did not decode, given what passing
    /// over its value gave: a rejected entry if the value could be passed
    /// over, else the key's error as a fatal error of the input, which cannot
    /// then be read past this entry.
    pub fn after_bad_key<S, X>(key_error: E, skipped: Result<S, X>) -> (r: Self)
        ensures
            match skipped {
                Ok(_) => r is Rejected,
                Err(_) => r == NextEntry::<K, V, E>::Fatal(key_error),
            },
    {
        match skipped {
            Ok(_) => NextEntry::Rejected,
            Err(_) => NextEntry::Fatal(key_error),
        }
    }
}

/// What the decoder does after one entry: go on with the next, or stop with
/// the finished map, or stop with the input's error.
pub enum Visit<K, V, E> {
    Continue(SkippableMapVisitor<K, V>),
    Done(SkippableMap<K, V>),
    Failed(E),
}

/// The forgiving decoder while it accumulates entries.
pub struct SkippableMapVisitor<K, V> {
    map: HashMap<K, V>,
}

impl<K, V> View for SkippableMapVisitor<K, V> {
    type V = Map<K, V>;

    closed spec fn view(&self) -> Map<K, V> {
        self.map@
    }
}

/// What decoding `entries` gives when `acc` has been accumulated already:
/// entries that decoded are inserted in order, so that a later one overwrites
/// an earlier one with an equal key; rejected ones are passed over; the first
/// end of data, or the end of `entries`, finishes the map; the first fatal
/// error is the result.
pub open spec fn decode_from<K, V, E>(acc: Map<K, V>, entries: Seq<NextEntry<K, V, E>>) -> Result<
    Map<K, V>,
    E,
>
    decreases entries.len(),
{
    if entries.len() == 0 {
        Ok(acc)
    } else {
        match entries[0] {
            NextEntry::Entry(k, v) => decode_from(acc.insert(k, v), entries.drop_first()),
            NextEntry::Rejected => decode_from(acc, entries.drop_first()),
            NextEntry::End => Ok(acc),
            NextEntry::Fatal(e) => Err(e),
        }
    }
}

/// What decoding `entries` from scratch gives.
pub open spec fn decode<K, V, E>(entries: Seq<NextEntry<K, V, E>>) -> Result<Map<K, V>, E> {
    decode_from(Map::empty(), entries)
}

/// The description of what the decoder expects, given the names of the key
/// type and the value type.
pub open spec fn expecting_text(key_type: Seq<char>, value_type: Seq<char>) -> Seq<char> {
    "a data structure which contains some mappings from "@ + key_type + " to "@ + value_type
}

/// Describes what the decoder expects, for the error that a format raises
/// when its input is not shaped like a map at all.
pub fn expecting(key_type: &str, value_type: &str) -> (r: String)
    ensures
        r@ == expecting_text(key_type@, value_type@),
{
    let mut text = String::from_str("a data structure which contains some mappings from ");
    text.append(key_type);
    text.append(" to ");
    text.append(value_type);
    text
}

impl<K, V> SkippableMapVisitor<K, V> {
    /// A decoder that has accumulated nothing yet.
    pub fn new() -> (r: Self)
        ensures
            r@ == Map::<K, V>::empty(),
    {
        SkippableMapVisitor { map: HashMap::new() }
    }

    /// A decoder that has accumulated nothing yet, with room reserved for the
    /// number of entries that the input announces, if it does, up to
    /// `MAX_RESERVED_ENTRIES`. The hint has no bearing on the result.
    pub fn with_size_hint(hint: Option<usize>) -> (r: Self)
        ensures
            r@ == Map::<K, V>::empty(),
    {
        let wanted = hint.unwrap_or(0);
        let reserved = if wanted < MAX_RESERVED_ENTRIES {
            wanted
        } else {
            MAX_RESERVED_ENTRIES
        };
        SkippableMapVisitor { map: HashMap::with_capacity(reserved) }
    }
}

impl<K: Eq + Hash, V> SkippableMapVisitor<K, V> {
    /// Takes in the outcome of asking the input for its next entry.
    ///
    /// An entry that decoded is inserted, overwriting any earlier value for its
    /// key; a rejected entry is dropped; at the end of data the accumulated map
    /// is the result; a fatal error of the input is passed on unchanged.
    /// `K`'s `==` and hashing must agree with each other, as vstd's key
    /// model states.
    pub fn visit_entry<E>(self, next: NextEntry<K, V, E>) -> (r: Visit<K, V, E>)
        requires
            obeys_key_model::<K>(),
        ensures
            match next {
                NextEntry::Entry(k, v) => r matches Visit::Continue(w) && w@ == self@.insert(k, v),
                NextEntry::Rejected => r matches Visit::Continue(w) && w@ == self@,
                NextEntry::End => r matches Visit::Done(m) && m@ == self@,
                NextEntry::Fatal(e) => r matches Visit::Failed(f) && f == e,
            },
    {
        let mut map = self.map;
        match next {
            NextEntry::Entry(k, v) => {
                map.insert(k, v);
                Visit::Continue(SkippableMapVisitor { map })
            },
            NextEntry::Rejected => Visit::Continue(SkippableMapVisitor { map }),
            NextEntry::End => Visit::Done(SkippableMap(map)),
            NextEntry::Fatal(e) => Visit::Failed(e),
        }
    }

    /// Decodes the entries of an input that has been read out in full: the
    /// result is what `decode_from` gives on what this decoder holds.
    pub fn visit_map<E>(self, entries: Vec<NextEntry<K, V, E>>) -> (r: Result<SkippableMap<K, V>, E>)
        requires
            obeys_key_model::<K>(),
        ensures
            match r {
                Ok(m) => decode_from(self@, entries@) == Ok::<Map<K, V>, E>(m@),
                Err(e) => decode_from(self@, entries@) == Err::<Map<K, V>, E>(e),
            },
    {
        let ghost all = entries@;
        let ghost start = self@;
        let mut visitor = self;
        proof {
            assert(all.skip(0) =~= all);
        }
        for next in it: entries.into_iter()
            invariant
                obeys_key_model::<K>(),
                it.seq() == all,
                all == entries@,
                start == self@,
                decode_from(visitor@, all.skip(it.index() as int)) == decode_from(start, all),
        {
            proof {
                let rest = all.skip(it.index() as int);
                assert(rest.len() > 0);
                assert(rest[0] == next);
                assert(rest.drop_first() =~= all.skip(it.index() + 1));
            }
            match visitor.visit_entry(next) {
                Visit::Continue(w) => {
                    visitor = w;
                },
                Visit::Done(m) => {
                    return Ok(m);
                },
                Visit::Failed(e) => {
                    return Err(e);
                },
            }
        }
        proof {
            assert(all.skip(all.len() as int).len() == 0);
        }
        Ok(SkippableMap(visitor.map))
    }
}

} // verus!
