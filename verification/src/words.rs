//! A persistent map from words to words, kept by `im`.
//!
//! Nothing here is proved: each function states what `im` documents of the
//! method it calls, over the name `word_map` for what a map holds.

use vstd::prelude::*;

verus! {

/// `im::HashMap`, a persistent hash map.
#[verifier::external_type_specification]
#[verifier::external_body]
#[verifier::reject_recursive_types(K)]
#[verifier::reject_recursive_types(V)]
#[verifier::reject_recursive_types(S)]
pub struct ExImHashMap<K, V, S>(im::HashMap<K, V, S>);

/// A persistent map from words to words.
pub type WordMap = im::HashMap<u128, u128>;

/// What a map holds: each key with its value.
pub uninterp spec fn word_map(m: WordMap) -> Map<u128, u128>;

/// The map that holds nothing.
pub open spec fn no_words() -> Map<u128, u128> {
    Map::empty()
}

/// True if the entries are what the map holds: every entry is a key of the
/// map with its value, every key of the map has an entry, and no key has
/// two.
pub open spec fn holds_entries(entries: Seq<(u128, u128)>, words: Map<u128, u128>) -> bool {
    &&& entries.len() == words.dom().len()
    &&& forall|i: int|
        0 <= i < entries.len() ==> words.contains_key((#[trigger] entries[i]).0)
            && words[entries[i].0] == entries[i].1
    &&& forall|k: u128|
        words.contains_key(k) ==> exists|i: int|
            0 <= i < entries.len() && (#[trigger] entries[i]).0 == k
    &&& forall|i: int, j: int|
        0 <= i < j < entries.len() ==> (#[trigger] entries[i]).0 != (#[trigger] entries[j]).0
}

/// `im::HashMap::new`. Claims that the new map holds nothing.
#[verifier::external_body]
pub(crate) fn words_new() -> (r: WordMap)
    ensures
        word_map(r) == no_words(),
{
    im::HashMap::new()
}

/// `im::HashMap::len`. Claims that the result is the number of keys.
#[verifier::external_body]
pub(crate) fn words_len(m: &WordMap) -> (r: usize)
    ensures
        r == word_map(*m).dom().len(),
{
    m.len()
}

/// `im::HashMap::get`. Claims that the result is the value under the key,
/// or nothing for a key that the map does not hold.
#[verifier::external_body]
pub(crate) fn words_get(m: &WordMap, key: u128) -> (r: Option<u128>)
    ensures
        r == (if word_map(*m).contains_key(key) {
            Some(word_map(*m)[key])
        } else {
            None
        }),
{
    m.get(&key).copied()
}

/// `im::HashMap::update`. Claims that the result holds the value under the
/// key and is otherwise as the map it was called on, which stays as it was.
#[verifier::external_body]
pub(crate) fn words_update(m: &WordMap, key: u128, value: u128) -> (r: WordMap)
    ensures
        word_map(r) == word_map(*m).insert(key, value),
{
    m.update(key, value)
}

/// `im::HashMap::without`. Claims that the result does not hold the key and
/// is otherwise as the map it was called on, which stays as it was.
#[verifier::external_body]
pub(crate) fn words_without(m: &WordMap, key: u128) -> (r: WordMap)
    ensures
        word_map(r) == word_map(*m).remove(key),
{
    m.without(&key)
}

/// `im::HashMap::iter`, gathered in a vector. Claims that the entries are
/// what the map holds, each key once; nothing is said of their order.
#[verifier::external_body]
pub(crate) fn words_entries(m: &WordMap) -> (r: Vec<(u128, u128)>)
    ensures
        holds_entries(r@, word_map(*m)),
{
    m.iter().map(|(key, value)| (*key, *value)).collect()
}

} // verus!
