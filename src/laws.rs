//! What holds of every run of the forgiving decoder, stated over `decode`.
use crate::visitor::{decode, decode_from, NextEntry};
use vstd::prelude::*;

verus! {

/// `entries` holds entries only, decoded or rejected: it is a well-formed
/// map-shaped input whose end of data is the end of the sequence.
pub open spec fn entries_only<K, V, E>(entries: Seq<NextEntry<K, V, E>>) -> bool {
    forall|i: int| 0 <= i < entries.len() ==> (#[trigger] entries[i] is Entry || entries[i] is Rejected)
}

/// `entries[i]` is an entry that decoded, with key `k`.
pub open spec fn decoded_key_at<K, V, E>(entries: Seq<NextEntry<K, V, E>>, i: int, k: K) -> bool {
    &&& 0 <= i < entries.len()
    &&& entries[i] matches NextEntry::Entry(key, _) && key == k
}

/// The keys of the entries of `entries` that decoded.
pub open spec fn decoded_keys<K, V, E>(entries: Seq<NextEntry<K, V, E>>) -> Set<K> {
    Set::new(|k: K| exists|i: int| decoded_key_at(entries, i, k))
}

/// What a strict decoder gives, one that fails on the first entry that does
/// not decode: `None` there, else the result of the input as a whole.
pub open spec fn strict_decode_from<K, V, E>(acc: Map<K, V>, entries: Seq<NextEntry<K, V, E>>) -> Option<
    Result<Map<K, V>, E>,
>
    decreases entries.len(),
{
    if entries.len() == 0 {
        Some(Ok(acc))
    } else {
        match entries[0] {
            NextEntry::Entry(k, v) => strict_decode_from(acc.insert(k, v), entries.drop_first()),
            NextEntry::Rejected => None,
            NextEntry::End => Some(Ok(acc)),
            NextEntry::Fatal(e) => Some(Err(e)),
        }
    }
}

proof fn lemma_subset_from<K, V, E>(acc: Map<K, V>, entries: Seq<NextEntry<K, V, E>>, k: K)
    requires
        decode_from(acc, entries) is Ok,
        decode_from(acc, entries)->Ok_0.contains_key(k),
    ensures
        ({
            let m = decode_from(acc, entries)->Ok_0;
            ||| acc.contains_key(k) && acc[k] == m[k]
            ||| exists|i: int|
                0 <= i < entries.len() && entries[i] == NextEntry::<K, V, E>::Entry(k, m[k])
        }),
    decreases entries.len(),
{
    if entries.len() > 0 {
        let rest = entries.drop_first();
        let m = decode_from(acc, entries)->Ok_0;
        match entries[0] {
            NextEntry::Entry(k0, v0) => {
                lemma_subset_from(acc.insert(k0, v0), rest, k);
                if k0 == k && v0 == m[k] {
                    assert(entries[0] == NextEntry::<K, V, E>::Entry(k, m[k]));
                } else if exists|i: int|
                    0 <= i < rest.len() && rest[i] == NextEntry::<K, V, E>::Entry(k, m[k]) {
                    let i = choose|i: int|
                        0 <= i < rest.len() && rest[i] == NextEntry::<K, V, E>::Entry(k, m[k]);
                    assert(entries[i + 1] == rest[i]);
                }
            },
            NextEntry::Rejected => {
                lemma_subset_from(acc, rest, k);
                if exists|i: int|
                    0 <= i < rest.len() && rest[i] == NextEntry::<K, V, E>::Entry(k, m[k]) {
                    let i = choose|i: int|
                        0 <= i < rest.len() && rest[i] == NextEntry::<K, V, E>::Entry(k, m[k]);
                    assert(entries[i + 1] == rest[i]);
                }
            },
            _ => {},
        }
    }
}

/// Every entry of a decoded map comes from an entry of the input whose key
/// and value both decoded.
pub proof fn lemma_decoded_entries_come_from_input<K, V, E>(
    entries: Seq<NextEntry<K, V, E>>,
    k: K,
)
    requires
        decode(entries) is Ok,
        decode(entries)->Ok_0.contains_key(k),
    ensures
        exists|i: int|
            0 <= i < entries.len() && entries[i] == NextEntry::<K, V, E>::Entry(
                k,
                decode(entries)->Ok_0[k],
            ),
{
    lemma_subset_from(Map::empty(), entries, k);
}

/// `entries[j]` is the last entry of `entries` that decoded with key `k`.
pub open spec fn last_with_key<K, V, E>(entries: Seq<NextEntry<K, V, E>>, j: int, k: K) -> bool {
    &&& decoded_key_at(entries, j, k)
    &&& forall|i: int| j < i < entries.len() ==> !decoded_key_at(entries, i, k)
}

proof fn lemma_entries_only_from<K, V, E>(acc: Map<K, V>, entries: Seq<NextEntry<K, V, E>>)
    requires
        entries_only(entries),
    ensures
        decode_from(acc, entries) is Ok,
        decode_from(acc, entries)->Ok_0.dom() == acc.dom().union(decoded_keys(entries)),
        forall|k: K|
            !decoded_keys(entries).contains(k) && acc.contains_key(k) ==> #[trigger] decode_from(
                acc,
                entries,
            )->Ok_0[k] == acc[k],
        forall|j: int, k: K|
            #[trigger] last_with_key(entries, j, k) ==> decode_from(acc, entries)->Ok_0[k]
                == entries[j]->Entry_1,
    decreases entries.len(),
{
    if entries.len() == 0 {
        assert(decoded_keys(entries) =~= Set::empty());
        assert(acc.dom().union(decoded_keys(entries)) =~= acc.dom());
    } else {
        let rest = entries.drop_first();
        assert forall|i: int| 0 <= i < rest.len() implies (#[trigger] rest[i] is Entry
            || rest[i] is Rejected) by {
            assert(rest[i] == entries[i + 1]);
        }
        assert forall|i: int, k: K| #[trigger] decoded_key_at(rest, i, k) <==> 0 <= i < rest.len()
            && decoded_key_at(entries, i + 1, k) by {
            if 0 <= i < rest.len() {
                assert(rest[i] == entries[i + 1]);
            }
        }
        let acc2 = match entries[0] {
            NextEntry::Entry(k0, v0) => acc.insert(k0, v0),
            _ => acc,
        };
        lemma_entries_only_from(acc2, rest);
        let m = decode_from(acc, entries)->Ok_0;
        assert(decode_from(acc, entries) == decode_from(acc2, rest));
        assert forall|k: K| #[trigger] decoded_keys(entries).contains(k) <==> (decoded_keys(
            rest,
        ).contains(k) || decoded_key_at(entries, 0, k)) by {
            if decoded_keys(entries).contains(k) {
                let i = choose|i: int| decoded_key_at(entries, i, k);
                if i > 0 {
                    assert(decoded_key_at(rest, i - 1, k));
                }
            }
            if decoded_keys(rest).contains(k) {
                let i = choose|i: int| decoded_key_at(rest, i, k);
                assert(decoded_key_at(entries, i + 1, k));
            }
        }
        assert(m.dom() =~= acc.dom().union(decoded_keys(entries)));
        assert forall|j: int, k: K| #[trigger] last_with_key(entries, j, k) implies m[k]
            == entries[j]->Entry_1 by {
            if j == 0 {
                assert(!decoded_keys(rest).contains(k)) by {
                    if decoded_keys(rest).contains(k) {
                        let i = choose|i: int| decoded_key_at(rest, i, k);
                        assert(decoded_key_at(entries, i + 1, k));
                    }
                }
            } else {
                assert(last_with_key(rest, j - 1, k));
            }
        }
    }
}

/// On a well-formed map-shaped input, the keys of the decoded map are exactly
/// the keys of the entries that decoded: entries that did not decode are
/// left out, and no entry that did is.
pub proof fn lemma_decoded_keys_are_exactly_the_accepted<K, V, E>(entries: Seq<NextEntry<K, V, E>>)
    requires
        entries_only(entries),
    ensures
        decode(entries) is Ok,
        decode(entries)->Ok_0.dom() == decoded_keys(entries),
{
    lemma_entries_only_from(Map::empty(), entries);
    assert(Map::<K, V>::empty().dom().union(decoded_keys(entries)) =~= decoded_keys(entries));
}

/// Where two entries that decoded share a key, the later one wins: a key maps
/// to the value of the last entry that decoded with it.
pub proof fn lemma_last_write_wins<K, V, E>(entries: Seq<NextEntry<K, V, E>>, j: int, k: K)
    requires
        entries_only(entries),
        last_with_key(entries, j, k),
    ensures
        decode(entries) is Ok,
        decode(entries)->Ok_0.contains_key(k),
        decode(entries)->Ok_0[k] == entries[j]->Entry_1,
{
    lemma_entries_only_from(Map::empty(), entries);
    assert(decoded_keys(entries).contains(k));
}

/// An empty input, or one that ends at once, decodes to the empty map.
pub proof fn lemma_empty_input_decodes_to_empty<K, V, E>()
    ensures
        decode(Seq::<NextEntry<K, V, E>>::empty()) == Ok::<Map<K, V>, E>(Map::empty()),
        decode(seq![NextEntry::<K, V, E>::End]) == Ok::<Map<K, V>, E>(Map::empty()),
{
    assert(decode(seq![NextEntry::<K, V, E>::End]) == decode_from(
        Map::<K, V>::empty(),
        seq![NextEntry::<K, V, E>::End],
    ));
}

proof fn lemma_strict_agrees_from<K, V, E>(acc: Map<K, V>, entries: Seq<NextEntry<K, V, E>>)
    requires
        forall|i: int| 0 <= i < entries.len() ==> !(#[trigger] entries[i] is Rejected),
    ensures
        strict_decode_from(acc, entries) == Some(decode_from(acc, entries)),
    decreases entries.len(),
{
    if entries.len() > 0 {
        let rest = entries.drop_first();
        assert forall|i: int| 0 <= i < rest.len() implies !(#[trigger] rest[i] is Rejected) by {
            assert(rest[i] == entries[i + 1]);
        }
        assert(!(entries[0] is Rejected));
        if let NextEntry::Entry(k, v) = entries[0] {
            lemma_strict_agrees_from(acc.insert(k, v), rest);
        }
    }
}

/// On an input where every entry decodes, the forgiving decoder and a strict
/// one give the same result.
pub proof fn lemma_agrees_with_strict_when_nothing_is_rejected<K, V, E>(
    entries: Seq<NextEntry<K, V, E>>,
)
    requires
        forall|i: int| 0 <= i < entries.len() ==> !(#[trigger] entries[i] is Rejected),
    ensures
        strict_decode_from(Map::empty(), entries) == Some(decode(entries)),
{
    lemma_strict_agrees_from(Map::<K, V>::empty(), entries);
}

} // verus!
