//! The two ordered maps of the collector, both `indexmap::IndexMap`s: the
//! label groups (label -> member indices) and the ids of the shared data.
//! Everything here is trusted: each item states what indexmap's source shows
//! of the one method it calls.

use vstd::prelude::*;
use indexmap::IndexMap;
use rustc_hash::FxBuildHasher;

verus! {

#[verifier::external_type_specification]
#[verifier::external_body]
#[verifier::reject_recursive_types(K)]
#[verifier::reject_recursive_types(V)]
#[verifier::reject_recursive_types(S)]
pub struct ExIndexMap<K, V, S>(IndexMap<K, V, S>);

#[verifier::external_type_specification]
#[verifier::external_body]
pub struct ExFxBuildHasher(FxBuildHasher);

/// What a map of label groups holds, in the map's order: each label (by its
/// characters) with the indices of its members.
pub uninterp spec fn group_entries(m: IndexMap<String, Vec<usize>>) -> Seq<(Seq<char>, Seq<usize>)>;

/// The ids a map of shared data holds, in the map's order.
pub uninterp spec fn shared_keys(m: IndexMap<u128, (), FxBuildHasher>) -> Seq<u128>;

/// Whether `key` stands as a label of `entries`.
pub open spec fn has_label(entries: Seq<(Seq<char>, Seq<usize>)>, key: Seq<char>) -> bool {
    exists|i: int| 0 <= i < entries.len() && #[trigger] entries[i].0 == key
}

/// `IndexMap::new`: an empty map of label groups.
#[verifier::external_body]
pub fn groups_new() -> (m: IndexMap<String, Vec<usize>>)
    ensures
        group_entries(m) == Seq::<(Seq<char>, Seq<usize>)>::empty(),
{
    IndexMap::new()
}

/// `IndexMap::get_index_of`: the position of the entry whose key equals
/// `key` (String keys are equal when their characters are), or `None` when
/// no key equals it.
#[verifier::external_body]
pub fn groups_index_of(m: &IndexMap<String, Vec<usize>>, key: &String) -> (r: Option<usize>)
    ensures
        match r {
            Some(i) => i < group_entries(*m).len() && group_entries(*m)[i as int].0 == key@,
            None => !has_label(group_entries(*m), key@),
        },
{
    m.get_index_of(key)
}

/// `IndexMap::insert_full` with a key that the map does not hold yet: the
/// pair is appended last in order, its position is returned with `None`.
#[verifier::external_body]
pub fn groups_insert_full(m: &mut IndexMap<String, Vec<usize>>, key: String, members: Vec<usize>) -> (r: (usize, Option<Vec<usize>>))
    requires
        !has_label(group_entries(*old(m)), key@),
    ensures
        group_entries(*final(m)) == group_entries(*old(m)).push((key@, members@)),
        r.0 == group_entries(*old(m)).len(),
        r.1 is None,
{
    m.insert_full(key, members)
}

/// `IndexMut<usize>::index_mut`: the value of the entry at `index`, to be
/// changed in place; what it holds when the borrow ends becomes that entry's
/// members, with its key and the order of entries unchanged. Indexing panics
/// out of bounds, which `requires` rules out.
#[verifier::external_body]
pub fn groups_value_mut(m: &mut IndexMap<String, Vec<usize>>, index: usize) -> (r: &mut Vec<usize>)
    requires
        index < group_entries(*old(m)).len(),
    ensures
        r@ == group_entries(*old(m))[index as int].1,
        group_entries(*final(m)) == group_entries(*old(m)).update(
            index as int,
            (group_entries(*old(m))[index as int].0, final(r)@),
        ),
{
    &mut m[index]
}

/// `IntoIterator::into_iter` on the map, collected: its entries as pairs, in
/// the map's order.
#[verifier::external_body]
pub fn groups_into_entries(m: IndexMap<String, Vec<usize>>) -> (r: Vec<(String, Vec<usize>)>)
    ensures
        r@.len() == group_entries(m).len(),
        forall|i: int| 0 <= i < r@.len() ==> (#[trigger] r@[i]).0@ == group_entries(m)[i].0 && r@[i].1@ == group_entries(m)[i].1,
{
    m.into_iter().collect()
}

/// `IndexMap::default` with the `FxBuildHasher`: an empty map of shared ids.
#[verifier::external_body]
pub fn shared_new() -> (m: IndexMap<u128, (), FxBuildHasher>)
    ensures
        shared_keys(m) == Seq::<u128>::empty(),
{
    IndexMap::default()
}

/// `IndexMap::get_index_of`: the position of `id` in the map, or `None`
/// when the map does not hold it.
#[verifier::external_body]
pub fn shared_index_of(m: &IndexMap<u128, (), FxBuildHasher>, id: u128) -> (r: Option<usize>)
    ensures
        match r {
            Some(i) => i < shared_keys(*m).len() && shared_keys(*m)[i as int] == id,
            None => !shared_keys(*m).contains(id),
        },
{
    m.get_index_of(&id)
}

/// `IndexMap::insert_full` with an id that the map does not hold yet: the id
/// is appended last in order, its position is returned with `None`.
#[verifier::external_body]
pub fn shared_insert_full(m: &mut IndexMap<u128, (), FxBuildHasher>, id: u128) -> (r: (usize, Option<()>))
    requires
        !shared_keys(*old(m)).contains(id),
    ensures
        shared_keys(*final(m)) == shared_keys(*old(m)).push(id),
        r.0 == shared_keys(*old(m)).len(),
        r.1 is None,
{
    m.insert_full(id, ())
}

/// `IndexMap::into_keys`, collected: the ids in the map's order.
#[verifier::external_body]
pub fn shared_into_keys(m: IndexMap<u128, (), FxBuildHasher>) -> (r: Vec<u128>)
    ensures
        r@ == shared_keys(m),
{
    m.into_keys().collect()
}

} // verus!
