//! Concurrent maps from a key to the indices filed under it, as the scan's
//! aggregation step uses them: one keyed by file size, one keyed by text.

use dashmap::DashMap;
use vstd::prelude::*;

verus! {

/// `dashmap::DashMap`, the sharded concurrent hash map. Nothing of its inside is visible here.
#[verifier::external_type_specification]
#[verifier::external_body]
#[verifier::reject_recursive_types(K)]
#[verifier::reject_recursive_types(V)]
#[verifier::reject_recursive_types(S)]
pub struct ExDashMap<K, V, S>(DashMap<K, V, S>);

/// What a size-keyed map holds: under each size, the indices filed there, oldest first.
pub uninterp spec fn size_map_contents(map: DashMap<u64, Vec<usize>>) -> Map<u64, Seq<usize>>;

/// What a text-keyed map holds: under each key, the indices filed there, oldest first.
pub uninterp spec fn text_map_contents(map: DashMap<String, Vec<usize>>) -> Map<Seq<char>, Seq<usize>>;

/// Whether nothing is filed under any key.
pub open spec fn holds_nothing<K>(contents: Map<K, Seq<usize>>) -> bool {
    contents == Map::<K, Seq<usize>>::empty()
}

/// The indices filed under `key`, none if the key is absent.
pub open spec fn filed_under<K>(contents: Map<K, Seq<usize>>, key: K) -> Seq<usize> {
    if contents.dom().contains(key) {
        contents[key]
    } else {
        Seq::empty()
    }
}

/// `contents` with `index` filed last under `key`.
pub open spec fn file_under<K>(contents: Map<K, Seq<usize>>, key: K, index: usize) -> Map<K, Seq<usize>> {
    contents.insert(key, filed_under(contents, key).push(index))
}

/// Whether `entries` lists every key of `contents` exactly once, each with what is filed
/// under it. The order of the entries is left open.
pub open spec fn lists_contents<K>(entries: Seq<(K, Seq<usize>)>, contents: Map<K, Seq<usize>>) -> bool {
    &&& forall|i: int| 0 <= i < entries.len() ==> contents.dom().contains(#[trigger] entries[i].0)
            && entries[i].1 == contents[entries[i].0]
    &&& forall|i: int, j: int| 0 <= i < j < entries.len() ==> #[trigger] entries[i].0 != #[trigger] entries[j].0
    &&& forall|key: K| #[trigger] contents.dom().contains(key) ==> exists|i: int| 0 <= i < entries.len() && #[trigger] entries[i].0 == key
}

/// The entries of a size-keyed map as values of the model.
pub open spec fn size_entries_view(entries: Seq<(u64, Vec<usize>)>) -> Seq<(u64, Seq<usize>)> {
    Seq::new(entries.len(), |i: int| (entries[i].0, entries[i].1@))
}

/// The entries of a text-keyed map as values of the model.
pub open spec fn text_entries_view(entries: Seq<(String, Vec<usize>)>) -> Seq<(Seq<char>, Seq<usize>)> {
    Seq::new(entries.len(), |i: int| (entries[i].0@, entries[i].1@))
}

/// `DashMap::new`: a map that holds nothing.
#[verifier::external_body]
pub(crate) fn size_map_new() -> (table: DashMap<u64, Vec<usize>>)
    ensures
        holds_nothing(size_map_contents(table)),
{
    DashMap::new()
}

/// `DashMap::entry` with `Entry::or_default`, then `Vec::push` on the value: files `index`
/// last under `key`, making the key's list first where the key is new. Other keys keep
/// what they hold.
#[verifier::external_body]
pub(crate) fn size_map_push(map: &mut DashMap<u64, Vec<usize>>, key: u64, index: usize)
    ensures
        size_map_contents(*final(map)) == file_under(size_map_contents(*old(map)), key, index),
{
    map.entry(key).or_default().push(index);
}

/// `DashMap::into_iter`, collected: every key once with its list. The map walks its
/// shards in hash order, which differs from run to run, so the order is not stated.
#[verifier::external_body]
pub(crate) fn size_map_into_entries(map: DashMap<u64, Vec<usize>>) -> (entries: Vec<(u64, Vec<usize>)>)
    ensures
        lists_contents(size_entries_view(entries@), size_map_contents(map)),
{
    map.into_iter().collect()
}

/// `DashMap::new`: a map that holds nothing.
#[verifier::external_body]
pub(crate) fn text_map_new() -> (table: DashMap<String, Vec<usize>>)
    ensures
        holds_nothing(text_map_contents(table)),
{
    DashMap::new()
}

/// `DashMap::entry` with `Entry::or_default`, then `Vec::push` on the value: files `index`
/// last under `key`, making the key's list first where the key is new. Other keys keep
/// what they hold. Two keys are the same key when their characters are the same.
#[verifier::external_body]
pub(crate) fn text_map_push(map: &mut DashMap<String, Vec<usize>>, key: String, index: usize)
    ensures
        text_map_contents(*final(map)) == file_under(text_map_contents(*old(map)), key@, index),
{
    map.entry(key).or_default().push(index);
}

/// `DashMap::into_iter`, collected: every key once with its list. The map walks its
/// shards in hash order, which differs from run to run, so the order is not stated.
#[verifier::external_body]
pub(crate) fn text_map_into_entries(map: DashMap<String, Vec<usize>>) -> (entries: Vec<(String, Vec<usize>)>)
    ensures
        lists_contents(text_entries_view(entries@), text_map_contents(map)),
{
    map.into_iter().collect()
}

} // verus!
