//! A map from account identifiers to values, kept as a vector of entries in
//! strictly increasing key order.

use crate::key_order::{compare_keys, key_before, lemma_key_before_strict_total, KeyOrder};
use vstd::prelude::*;

verus! {

/// An ordered map keyed by account identifier.
///
/// Its view is the mathematical map from identifiers (as character
/// sequences) to the stored values. No identifier is stored twice, and the
/// entries stand in lexicographic order of the identifiers' bytes.
pub struct AccountMap<V> {
    entries: Vec<(String, V)>,
}

/// The identifiers of a run of entries, in storage order.
spec fn keys_of<V>(entries: Seq<(String, V)>) -> Seq<Seq<char>> {
    Seq::new(entries.len(), |i: int| entries[i].0@)
}

/// Each key comes strictly before every later one.
spec fn increasing(keys: Seq<Seq<char>>) -> bool {
    forall|i: int, j: int| 0 <= i < j < keys.len() ==> key_before(keys[i], keys[j])
}

/// The map that a run of entries stands for.
spec fn model<V>(entries: Seq<(String, V)>) -> Map<Seq<char>, V> {
    let keys = keys_of(entries);
    Map::new(|k: Seq<char>| keys.contains(k), |k: Seq<char>| entries[keys.index_of(k)].1)
}

/// In an increasing run every entry is found under its own key.
proof fn lemma_model_entry<V>(entries: Seq<(String, V)>, i: int)
    requires
        increasing(keys_of(entries)),
        0 <= i < entries.len(),
    ensures
        model(entries).contains_key(entries[i].0@),
        model(entries)[entries[i].0@] == entries[i].1,
{
    let keys = keys_of(entries);
    assert(keys[i] == entries[i].0@);
    let j = keys.index_of(keys[i]);
    assert(0 <= j < keys.len() && keys[j] == keys[i]);
    lemma_key_before_strict_total(keys[i], keys[i], keys[i]);
}

/// A key that stands between the entries below `p` and those from `p` on
/// is not in the map.
proof fn lemma_model_gap<V>(entries: Seq<(String, V)>, p: int, key: Seq<char>)
    requires
        0 <= p <= entries.len(),
        forall|i: int| 0 <= i < p ==> key_before(#[trigger] keys_of(entries)[i], key),
        forall|i: int| p <= i < entries.len() ==> key_before(key, #[trigger] keys_of(entries)[i]),
    ensures
        !model(entries).contains_key(key),
{
    let keys = keys_of(entries);
    if keys.contains(key) {
        let j = keys.index_of(key);
        assert(keys[j] == key);
        lemma_key_before_strict_total(key, key, key);
    }
}

/// Replacing the value of entry `i`, under a key with the same characters,
/// keeps the order and updates the map at that key.
proof fn lemma_model_update<V>(entries: Seq<(String, V)>, i: int, key: String, value: V)
    requires
        increasing(keys_of(entries)),
        0 <= i < entries.len(),
        entries[i].0@ == key@,
    ensures
        increasing(keys_of(entries.update(i, (key, value)))),
        model(entries.update(i, (key, value))) == model(entries).insert(key@, value),
{
    let after = entries.update(i, (key, value));
    assert(keys_of(after) =~= keys_of(entries));
    assert forall|k: Seq<char>| #[trigger] model(entries).insert(key@, value).contains_key(k) implies
        model(after).contains_key(k) && model(after)[k] == model(entries).insert(key@, value)[k] by {
        let j = if k == key@ {
            i
        } else {
            keys_of(entries).index_of(k)
        };
        assert(keys_of(entries)[j] == k);
        lemma_model_entry(entries, j);
        lemma_model_entry(after, j);
    }
    assert(model(after) =~= model(entries).insert(key@, value));
}

/// Putting a new entry into the gap where its key belongs keeps the order
/// and adds the key to the map.
proof fn lemma_model_insert<V>(entries: Seq<(String, V)>, p: int, key: String, value: V)
    requires
        increasing(keys_of(entries)),
        0 <= p <= entries.len(),
        forall|i: int| 0 <= i < p ==> key_before(#[trigger] keys_of(entries)[i], key@),
        forall|i: int| p <= i < entries.len() ==> key_before(key@, #[trigger] keys_of(entries)[i]),
    ensures
        increasing(keys_of(entries.insert(p, (key, value)))),
        model(entries.insert(p, (key, value))) == model(entries).insert(key@, value),
{
    let before = keys_of(entries);
    let after = entries.insert(p, (key, value));
    let keys = keys_of(after);
    assert forall|i: int| 0 <= i < keys.len() implies #[trigger] keys[i] == (if i < p {
        before[i]
    } else if i == p {
        key@
    } else {
        before[i - 1]
    }) by {}
    assert forall|i: int, j: int| 0 <= i < j < keys.len() implies key_before(keys[i], keys[j]) by {
        if i < p && j > p {
            lemma_key_before_strict_total(before[i], key@, before[j - 1]);
        }
    }
    assert forall|k: Seq<char>| #[trigger] model(entries).insert(key@, value).contains_key(k) implies
        model(after).contains_key(k) && model(after)[k] == model(entries).insert(key@, value)[k] by {
        if k == key@ {
            lemma_model_entry(after, p);
        } else {
            let j = before.index_of(k);
            lemma_model_entry(entries, j);
            if j < p {
                lemma_model_entry(after, j);
            } else {
                lemma_model_entry(after, j + 1);
            }
        }
    }
    assert forall|k: Seq<char>| #[trigger] model(after).contains_key(k) implies model(
        entries,
    ).insert(key@, value).contains_key(k) by {
        let j = keys.index_of(k);
        if j < p {
            assert(before[j] == k);
        } else if j > p {
            assert(before[j - 1] == k);
        }
    }
    assert(model(after) =~= model(entries).insert(key@, value));
}

/// The map of an increasing run has as many keys as the run has entries.
proof fn lemma_model_len<V>(entries: Seq<(String, V)>)
    requires
        increasing(keys_of(entries)),
    ensures
        model(entries).dom().finite(),
        model(entries).len() == entries.len(),
{
    let keys = keys_of(entries);
    assert forall|i: int, j: int| 0 <= i < keys.len() && 0 <= j < keys.len() && i != j implies keys[i]
        != keys[j] by {
        lemma_key_before_strict_total(keys[i], keys[j], keys[i]);
    }
    keys.unique_seq_to_set();
    vstd::seq_lib::seq_to_set_is_finite(keys);
    assert(model(entries).dom() =~= keys.to_set());
}

impl<V> View for AccountMap<V> {
    type V = Map<Seq<char>, V>;

    closed spec fn view(&self) -> Map<Seq<char>, V> {
        model(self.entries@)
    }
}

impl<V> AccountMap<V> {
    #[verifier::type_invariant]
    spec fn ordered(self) -> bool {
        increasing(keys_of(self.entries@))
    }

    /// A map holds finitely many keys.
    pub proof fn lemma_view_finite(self)
        ensures
            self@.dom().finite(),
    {
        let keys = keys_of(self.entries@);
        vstd::seq_lib::seq_to_set_is_finite(keys);
        assert(self@.dom() =~= keys.to_set());
    }

    /// An empty map.
    pub fn new() -> (m: Self)
        ensures
            m@ == Map::<Seq<char>, V>::empty(),
    {
        let m = AccountMap { entries: Vec::new() };
        assert(m@ =~= Map::<Seq<char>, V>::empty());
        m
    }

    /// Binary search for `key`: `Ok(i)` if entry `i` holds it, else
    /// `Err(p)` where `p` is the position at which it would be inserted.
    fn locate(&self, key: &str) -> (r: Result<usize, usize>)
        ensures
            match r {
                Ok(i) => i < self.entries@.len() && self.entries@[i as int].0@ == key@,
                Err(p) => {
                    &&& p <= self.entries@.len()
                    &&& forall|i: int|
                        0 <= i < p ==> key_before(#[trigger] keys_of(self.entries@)[i], key@)
                    &&& forall|i: int|
                        p <= i < self.entries@.len() ==> key_before(
                            key@,
                            #[trigger] keys_of(self.entries@)[i],
                        )
                },
            },
    {
        proof {
            use_type_invariant(self);
        }
        let ghost keys = keys_of(self.entries@);
        let mut lo: usize = 0;
        let mut hi: usize = self.entries.len();
        while lo < hi
            invariant
                lo <= hi <= self.entries@.len(),
                keys == keys_of(self.entries@),
                increasing(keys),
                forall|i: int| 0 <= i < lo ==> key_before(#[trigger] keys[i], key@),
                forall|i: int| hi <= i < keys.len() ==> key_before(key@, #[trigger] keys[i]),
            decreases hi - lo,
        {
            let mid: usize = lo + (hi - lo) / 2;
            let found = compare_keys(self.entries[mid].0.as_str(), key);
            assert(keys[mid as int] == self.entries@[mid as int].0@);
            match found {
                KeyOrder::Same => {
                    return Ok(mid);
                },
                KeyOrder::Before => {
                    assert forall|i: int| 0 <= i < mid + 1 implies key_before(
                        #[trigger] keys[i],
                        key@,
                    ) by {
                        lemma_key_before_strict_total(keys[i], keys[mid as int], key@);
                    }
                    lo = mid + 1;
                },
                KeyOrder::After => {
                    proof {
                        lemma_key_before_strict_total(keys[mid as int], key@, key@);
                    }
                    assert forall|i: int| mid <= i < keys.len() implies key_before(
                        key@,
                        #[trigger] keys[i],
                    ) by {
                        lemma_key_before_strict_total(key@, keys[mid as int], keys[i]);
                    }
                    hi = mid;
                },
            }
        }
        Err(lo)
    }

    /// The number of stored entries.
    pub fn len(&self) -> (n: usize)
        ensures
            self@.dom().finite(),
            n == self@.len(),
    {
        proof {
            use_type_invariant(self);
            lemma_model_len(self.entries@);
        }
        self.entries.len()
    }

    /// The stored identifiers, each once, in increasing order.
    pub fn keys(&self) -> (keys: Vec<String>)
        ensures
            keys@.len() == self@.len(),
            forall|i: int, j: int|
                0 <= i < j < keys@.len() ==> key_before(#[trigger] keys@[i]@, #[trigger] keys@[j]@),
            forall|k: Seq<char>|
                self@.contains_key(k) <==> exists|i: int|
                    0 <= i < keys@.len() && #[trigger] keys@[i]@ == k,
    {
        proof {
            use_type_invariant(self);
            lemma_model_len(self.entries@);
        }
        let ghost stored = keys_of(self.entries@);
        let mut keys: Vec<String> = Vec::new();
        let mut i: usize = 0;
        while i < self.entries.len()
            invariant
                i <= self.entries@.len(),
                stored == keys_of(self.entries@),
                keys@.len() == i,
                forall|j: int| 0 <= j < i ==> #[trigger] keys@[j]@ == stored[j],
            decreases self.entries@.len() - i,
        {
            keys.push(self.entries[i].0.clone());
            i += 1;
        }
        proof {
            assert forall|k: Seq<char>| self@.contains_key(k) implies exists|i: int|
                0 <= i < keys@.len() && #[trigger] keys@[i]@ == k by {
                let j = stored.index_of(k);
                assert(keys@[j]@ == k);
            }
            assert forall|k: Seq<char>|
                (exists|i: int|
                    0 <= i < keys@.len() && #[trigger] keys@[i]@ == k) implies self@.contains_key(
                k,
            ) by {
                let j = choose|i: int| 0 <= i < keys@.len() && #[trigger] keys@[i]@ == k;
                assert(stored[j] == k);
            }
        }
        keys
    }

    /// Stores `value` under `key`, replacing what was stored there.
    pub fn insert(&mut self, key: String, value: V)
        ensures
            final(self)@ == old(self)@.insert(key@, value),
    {
        proof {
            use_type_invariant(&*self);
        }
        let place = self.locate(key.as_str());
        let mut entries = Vec::new();
        std::mem::swap(&mut entries, &mut self.entries);
        match place {
            Ok(i) => {
                proof {
                    lemma_model_update(entries@, i as int, key, value);
                }
                entries[i] = (key, value);
            },
            Err(p) => {
                proof {
                    lemma_model_insert(entries@, p as int, key, value);
                }
                entries.insert(p, (key, value));
            },
        }
        self.entries = entries;
    }

    /// The value stored under `key`, if there is one.
    pub fn get(&self, key: &str) -> (r: Option<&V>)
        ensures
            r == (if self@.contains_key(key@) {
                Some(&self@[key@])
            } else {
                None
            }),
    {
        proof {
            use_type_invariant(self);
        }
        match self.locate(key) {
            Ok(i) => {
                proof {
                    lemma_model_entry(self.entries@, i as int);
                }
                Some(&self.entries[i].1)
            },
            Err(p) => {
                proof {
                    lemma_model_gap(self.entries@, p as int, key@);
                }
                None
            },
        }
    }
}

} // verus!
