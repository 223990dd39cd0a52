//! Lists of entries under string keys, in the order in which they were
//! written. Attributes and listeners are such lists; a key is looked up by
//! its first entry.

use vstd::prelude::*;

verus! {

/// The keys of `entries`, in order.
pub open spec fn keys<V>(entries: Seq<(Seq<char>, V)>) -> Seq<Seq<char>> {
    entries.map_values(|e: (Seq<char>, V)| e.0)
}

/// The position of the first entry under `key`, if there is one.
pub open spec fn position<V>(entries: Seq<(Seq<char>, V)>, key: Seq<char>) -> Option<int> {
    keys(entries).index_of_first(key)
}

/// Whether some entry stands under `key`.
pub open spec fn has_key<V>(entries: Seq<(Seq<char>, V)>, key: Seq<char>) -> bool {
    keys(entries).contains(key)
}

/// The value of the first entry under `key`, if there is one.
pub open spec fn lookup<V>(entries: Seq<(Seq<char>, V)>, key: Seq<char>) -> Option<V> {
    match position(entries, key) {
        Some(i) => Some(entries[i].1),
        None => None,
    }
}

/// Whether no two entries share a key.
pub open spec fn unique_keys<V>(entries: Seq<(Seq<char>, V)>) -> bool {
    keys(entries).no_duplicates()
}

/// The keys of a vector of entries with owned keys, in order.
pub open spec fn owned_keys<T>(entries: Seq<(String, T)>) -> Seq<Seq<char>> {
    entries.map_values(|e: (String, T)| e.0@)
}

/// The values that `options` hold, in order.
pub open spec fn collect<T>(options: Seq<Option<T>>) -> Seq<T>
    decreases options.len(),
{
    if options.len() == 0 {
        Seq::empty()
    } else {
        match options.last() {
            Some(value) => collect(options.drop_last()).push(value),
            None => collect(options.drop_last()),
        }
    }
}

/// A position that holds `key` and has no entry under `key` before it is the
/// position of `key`.
pub proof fn lemma_position_is_first(keys: Seq<Seq<char>>, key: Seq<char>, i: int)
    requires
        0 <= i < keys.len(),
        keys[i] == key,
        forall|j: int| 0 <= j < i ==> keys[j] != key,
    ensures
        keys.index_of_first(key) == Some(i),
{
    keys.index_of_first_ensures(key);
    assert(keys.contains(key));
}

/// A key that no position holds has no position.
pub proof fn lemma_position_is_none(keys: Seq<Seq<char>>, key: Seq<char>)
    requires
        forall|j: int| 0 <= j < keys.len() ==> keys[j] != key,
    ensures
        keys.index_of_first(key) is None,
{
    keys.index_of_first_ensures(key);
}

/// What a position says of the list: it is in range, holds the key, and no
/// earlier entry does; without a position no entry holds the key.
pub proof fn lemma_position<V>(entries: Seq<(Seq<char>, V)>, key: Seq<char>)
    ensures
        match position(entries, key) {
            Some(i) => {
                &&& 0 <= i < entries.len()
                &&& entries[i].0 == key
                &&& forall|j: int| 0 <= j < i ==> entries[j].0 != key
            },
            None => forall|j: int| 0 <= j < entries.len() ==> entries[j].0 != key,
        },
{
    keys(entries).index_of_first_ensures(key);
    match position(entries, key) {
        Some(i) => {
            assert forall|j: int| 0 <= j < i implies entries[j].0 != key by {
                assert(keys(entries)[j] != key);
            }
        },
        None => {
            assert forall|j: int| 0 <= j < entries.len() implies entries[j].0 != key by {
                assert(keys(entries)[j] == entries[j].0);
            }
        },
    }
}

/// Where no two entries share a key, each entry is the first under its
/// key.
pub proof fn lemma_unique_position<V>(entries: Seq<(Seq<char>, V)>, i: int)
    requires
        unique_keys(entries),
        0 <= i < entries.len(),
    ensures
        position(entries, entries[i].0) == Some(i),
        lookup(entries, entries[i].0) == Some(entries[i].1),
        has_key(entries, entries[i].0),
{
    assert(keys(entries)[i] == entries[i].0);
    assert forall|j: int| 0 <= j < i implies keys(entries)[j] != entries[i].0 by {}
    lemma_position_is_first(keys(entries), entries[i].0, i);
}

/// A key has a position exactly if some entry stands under it.
pub proof fn lemma_has_key<V>(entries: Seq<(Seq<char>, V)>, key: Seq<char>)
    ensures
        has_key(entries, key) <==> position(entries, key) is Some,
        has_key(entries, key) <==> lookup(entries, key) is Some,
{
    keys(entries).index_of_first_ensures(key);
}

/// Whether some option holds `value`.
pub open spec fn holds<T>(options: Seq<Option<T>>, value: T) -> bool {
    options.contains(Some(value))
}

/// What `collect` gathers is what the options hold: every gathered value
/// is held by some option, and the value of every option is gathered.
pub proof fn lemma_collect<T>(options: Seq<Option<T>>)
    ensures
        forall|k: int| 0 <= k < collect(options).len() ==> holds(options, #[trigger] collect(options)[k]),
        forall|value: T| holds(options, value) ==> #[trigger] collect(options).contains(value),
    decreases options.len(),
{
    let all = collect(options);
    if options.len() > 0 {
        let rest = options.drop_last();
        lemma_collect(rest);
        assert forall|k: int| 0 <= k < all.len() implies holds(options, #[trigger] all[k]) by {
            if k < collect(rest).len() {
                assert(holds(rest, collect(rest)[k]));
                let i = rest.index_of(Some(all[k]));
                assert(options[i] == Some(all[k]));
            } else {
                assert(options[options.len() - 1] == Some(all[k]));
            }
        }
        assert forall|value: T| holds(options, value) implies #[trigger] all.contains(value) by {
            let i = options.index_of(Some(value));
            if i < rest.len() {
                assert(rest[i] == Some(value));
                assert(collect(rest).contains(value));
                let k = collect(rest).index_of(value);
                assert(all[k] == value);
            } else {
                assert(all[all.len() - 1] == value);
            }
        }
    }
}

/// Where the values of different options differ under `key`, so do the
/// gathered values at different positions.
pub proof fn lemma_collect_distinct<T, K>(options: Seq<Option<T>>, key: spec_fn(T) -> K)
    requires
        forall|i: int, j: int|
            0 <= i < j < options.len() && options[i] is Some && options[j] is Some ==> key(options[i].unwrap())
                != key(options[j].unwrap()),
    ensures
        forall|k: int, l: int|
            0 <= k < l < collect(options).len() ==> key(collect(options)[k]) != key(collect(options)[l]),
    decreases options.len(),
{
    if options.len() > 0 {
        let rest = options.drop_last();
        lemma_collect_distinct(rest, key);
        lemma_collect(rest);
        let all = collect(options);
        assert forall|k: int, l: int| 0 <= k < l < all.len() implies key(all[k]) != key(all[l]) by {
            if l >= collect(rest).len() {
                assert(holds(rest, collect(rest)[k]));
                let i = rest.index_of(Some(all[k]));
                assert(options[i] == rest[i]);
            }
        }
    }
}

/// Where every option is `None`, nothing is gathered.
pub proof fn lemma_collect_nothing<T>(options: Seq<Option<T>>)
    requires
        forall|i: int| 0 <= i < options.len() ==> options[i] is None,
    ensures
        collect(options) == Seq::<T>::empty(),
    decreases options.len(),
{
    if options.len() > 0 {
        lemma_collect_nothing(options.drop_last());
    }
}

/// Finds the first entry under `key`.
pub fn find<T>(entries: &Vec<(String, T)>, key: &String) -> (found: Option<usize>)
    ensures
        match found {
            Some(i) => {
                &&& i < entries.len()
                &&& entries[i as int].0@ == key@
                &&& owned_keys(entries@).index_of_first(key@) == Some(i as int)
            },
            None => owned_keys(entries@).index_of_first(key@) is None,
        },
{
    let mut i: usize = 0;
    while i < entries.len()
        invariant
            i <= entries.len(),
            forall|j: int| 0 <= j < i ==> owned_keys(entries@)[j] != key@,
        decreases entries.len() - i,
    {
        if entries[i].0 == *key {
            proof {
                lemma_position_is_first(owned_keys(entries@), key@, i as int);
            }
            return Some(i);
        }
        i += 1;
    }
    proof {
        lemma_position_is_none(owned_keys(entries@), key@);
    }
    None
}

} // verus!
