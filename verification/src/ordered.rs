//! Insertion-ordered maps and sets.
//!
//! The maps and sets are those of `cairo_lang_utils`. What one of them holds is named here, as the
//! sequence of its entries in their order, and every operation that the library uses is given a
//! contract over those names.
use cairo_lang_utils::ordered_hash_map::OrderedHashMap;
use cairo_lang_utils::ordered_hash_set::OrderedHashSet;
use vstd::prelude::*;

use crate::ids::{MemberId, VariableId};
use crate::member_path::{ExprVarMemberPath, MemberPath};
use crate::objects::VarUsage;
use crate::types::Type;

verus! {

/// The insertion-ordered hash map of `cairo_lang_utils`.
#[verifier::external_type_specification]
#[verifier::external_body]
#[verifier::reject_recursive_types(K)]
#[verifier::reject_recursive_types(V)]
#[verifier::reject_recursive_types(BH)]
pub struct ExOrderedHashMap<K, V, BH>(OrderedHashMap<K, V, BH>);

/// The insertion-ordered hash set of `cairo_lang_utils`.
#[verifier::external_type_specification]
#[verifier::external_body]
#[verifier::reject_recursive_types(K)]
#[verifier::reject_recursive_types(BH)]
pub struct ExOrderedHashSet<K, BH>(OrderedHashSet<K, BH>);

// Entry sequences.

/// The place of the first entry with the given key.
pub open spec fn position<K, V>(entries: Seq<(K, V)>, key: K) -> Option<int>
    decreases entries.len(),
{
    if entries.len() == 0 {
        None
    } else {
        match position(entries.drop_last(), key) {
            Some(i) => Some(i),
            None => if entries.last().0 == key {
                Some(entries.len() - 1)
            } else {
                None
            },
        }
    }
}

/// Whether some entry has the given key.
pub open spec fn has_key<K, V>(entries: Seq<(K, V)>, key: K) -> bool {
    position(entries, key) is Some
}

/// The value of the first entry with the given key.
pub open spec fn value_of<K, V>(entries: Seq<(K, V)>, key: K) -> Option<V> {
    match position(entries, key) {
        Some(i) => Some(entries[i].1),
        None => None,
    }
}

/// The entries after `key` was given `value`: in its place if the key was there, last otherwise.
pub open spec fn inserted<K, V>(entries: Seq<(K, V)>, key: K, value: V) -> Seq<(K, V)> {
    match position(entries, key) {
        Some(i) => entries.update(i, (key, value)),
        None => entries.push((key, value)),
    }
}

/// The entries after the one with the given key was removed: the last entry takes its place.
pub open spec fn swap_removed<K, V>(entries: Seq<(K, V)>, key: K) -> Seq<(K, V)> {
    match position(entries, key) {
        Some(i) => entries.update(i, entries.last()).drop_last(),
        None => entries,
    }
}

/// The entries of a map into which the given pairs were inserted one after the other.
pub open spec fn collected<K, V>(pairs: Seq<(K, V)>) -> Seq<(K, V)>
    decreases pairs.len(),
{
    if pairs.len() == 0 {
        Seq::empty()
    } else {
        inserted(collected(pairs.drop_last()), pairs.last().0, pairs.last().1)
    }
}

/// The elements of a set after `key` was inserted.
pub open spec fn set_inserted<K>(elements: Seq<K>, key: K) -> Seq<K> {
    if elements.contains(key) {
        elements
    } else {
        elements.push(key)
    }
}

/// No two entries have the same key.
pub open spec fn unique_keys<K, V>(entries: Seq<(K, V)>) -> bool {
    forall|i: int, j: int|
        0 <= i < j < entries.len() ==> (#[trigger] entries[i]).0 != (#[trigger] entries[j]).0
}

/// A key that occurs in a part of the entries from their start has its place there.
pub proof fn lemma_position_of_prefix<K, V>(entries: Seq<(K, V)>, n: int, key: K)
    requires
        0 <= n <= entries.len(),
        position(entries.take(n), key) is Some,
    ensures
        position(entries, key) == position(entries.take(n), key),
    decreases entries.len() - n,
{
    if n < entries.len() {
        assert(entries.take(n + 1).drop_last() =~= entries.take(n));
        lemma_position_of_prefix(entries, n + 1, key);
    } else {
        assert(entries.take(n) =~= entries);
    }
}

/// The place of a key is that of the first entry that has it.
pub proof fn lemma_position<K, V>(entries: Seq<(K, V)>, key: K)
    ensures
        match position(entries, key) {
            Some(i) => {
                &&& 0 <= i < entries.len()
                &&& entries[i].0 == key
                &&& forall|j: int| 0 <= j < i ==> (#[trigger] entries[j]).0 != key
            },
            None => forall|j: int| 0 <= j < entries.len() ==> (#[trigger] entries[j]).0 != key,
        },
    decreases entries.len(),
{
    if entries.len() > 0 {
        lemma_position(entries.drop_last(), key);
        assert forall|j: int| 0 <= j < entries.len() - 1 implies #[trigger] entries[j]
            == entries.drop_last()[j] by {}
    }
}

/// An entry whose key no entry before it has is the one that its key leads to.
pub proof fn lemma_position_is<K, V>(entries: Seq<(K, V)>, i: int)
    requires
        0 <= i < entries.len(),
        forall|j: int| 0 <= j < i ==> (#[trigger] entries[j]).0 != entries[i].0,
    ensures
        position(entries, entries[i].0) == Some(i),
{
    lemma_position(entries, entries[i].0);
}

/// What an insertion does to the keys: the inserted key has the new value, every other key keeps
/// what it had, and no key comes to be there twice.
pub proof fn lemma_inserted<K, V>(entries: Seq<(K, V)>, key: K, value: V)
    ensures
        value_of(inserted(entries, key, value), key) == Some(value),
        forall|k: K|
            k != key ==> #[trigger] value_of(inserted(entries, key, value), k) == value_of(
                entries,
                k,
            ),
        unique_keys(entries) ==> unique_keys(inserted(entries, key, value)),
{
    let after = inserted(entries, key, value);
    lemma_position(entries, key);
    lemma_position(after, key);
    match position(entries, key) {
        Some(i) => {
            assert(after[i] == (key, value));
            lemma_position_is(after, i);
        },
        None => {
            assert(after[entries.len() as int] == (key, value));
            lemma_position_is(after, entries.len() as int);
        },
    }
    assert forall|k: K| k != key implies #[trigger] value_of(after, k) == value_of(entries, k) by {
        lemma_position(entries, k);
        lemma_position(after, k);
        match position(entries, k) {
            Some(i) => {
                assert(after[i] == entries[i]);
                assert forall|j: int| 0 <= j < i implies (#[trigger] after[j]).0 != after[i].0 by {
                    assert(entries[j].0 != k);
                }
                lemma_position_is(after, i);
            },
            None => {
                if let Some(i) = position(after, k) {
                    assert(after[i].0 == k);
                    assert(i < entries.len() ==> entries[i].0 != k);
                }
            },
        }
    }
}

/// What a removal does to the keys: the removed key is gone, and every other key keeps what it had.
pub proof fn lemma_swap_removed<K, V>(entries: Seq<(K, V)>, key: K)
    requires
        unique_keys(entries),
    ensures
        !has_key(swap_removed(entries, key), key),
        forall|k: K|
            k != key ==> #[trigger] value_of(swap_removed(entries, key), k) == value_of(
                entries,
                k,
            ),
        unique_keys(swap_removed(entries, key)),
{
    let after = swap_removed(entries, key);
    lemma_position(entries, key);
    lemma_position(after, key);
    if let Some(i) = position(entries, key) {
        let last = entries.len() - 1;
        assert forall|j: int| 0 <= j < after.len() implies #[trigger] after[j] == (if j == i {
            entries[last]
        } else {
            entries[j]
        }) by {}
        assert(unique_keys(after));
        if let Some(j) = position(after, key) {
            assert(after[j].0 == key);
            assert(false);
        }
        assert forall|k: K| k != key implies #[trigger] value_of(after, k) == value_of(
            entries,
            k,
        ) by {
            lemma_position(entries, k);
            lemma_position(after, k);
            match position(entries, k) {
                Some(j) => {
                    let to = if j == last {
                        i
                    } else {
                        j
                    };
                    assert(after[to] == entries[j]);
                    lemma_position_is(after, to);
                },
                None => {
                    if let Some(j) = position(after, k) {
                        assert(after[j].0 == k);
                        assert(false);
                    }
                },
            }
        }
    }
}

/// A map into which pairs were inserted has no key twice.
pub proof fn lemma_collected_unique<K, V>(pairs: Seq<(K, V)>)
    ensures
        unique_keys(collected(pairs)),
    decreases pairs.len(),
{
    if pairs.len() > 0 {
        lemma_collected_unique(pairs.drop_last());
        lemma_inserted(collected(pairs.drop_last()), pairs.last().0, pairs.last().1);
    }
}

/// Pairs with different keys are the entries of the map into which they were inserted.
pub proof fn lemma_collected_distinct<K, V>(pairs: Seq<(K, V)>)
    requires
        unique_keys(pairs),
    ensures
        collected(pairs) == pairs,
    decreases pairs.len(),
{
    if pairs.len() > 0 {
        lemma_collected_distinct(pairs.drop_last());
        lemma_position(pairs.drop_last(), pairs.last().0);
        if let Some(i) = position(pairs.drop_last(), pairs.last().0) {
            assert(pairs[i].0 == pairs.last().0);
        }
        assert(pairs.drop_last().push(pairs.last()) =~= pairs);
    } else {
        assert(collected(pairs) =~= pairs);
    }
}

// Maps from member paths to variables.

/// The entries of a map from member paths to variables, in their order.
pub uninterp spec fn path_vars(map: OrderedHashMap<MemberPath, VariableId>) -> Seq<
    (MemberPath, VariableId),
>;

/// `OrderedHashMap::default`: the map is empty.
#[verifier::external_body]
pub(crate) fn path_vars_new() -> (res: OrderedHashMap<MemberPath, VariableId>)
    ensures
        path_vars(res) == Seq::<(MemberPath, VariableId)>::empty(),
{
    OrderedHashMap::default()
}

/// `OrderedHashMap::clone`: the clone has the same entries in the same order.
#[verifier::external_body]
pub(crate) fn path_vars_clone(map: &OrderedHashMap<MemberPath, VariableId>) -> (res: OrderedHashMap<
    MemberPath,
    VariableId,
>)
    ensures
        path_vars(res) == path_vars(*map),
{
    map.clone()
}

/// `OrderedHashMap::get`: the value that the key has in the map.
#[verifier::external_body]
pub(crate) fn path_vars_get(
    map: &OrderedHashMap<MemberPath, VariableId>,
    path: &MemberPath,
) -> (res: Option<VariableId>)
    ensures
        res == value_of(path_vars(*map), *path),
{
    map.get(path).copied()
}

/// `OrderedHashMap::contains_key`: whether the key is in the map.
#[verifier::external_body]
pub(crate) fn path_vars_contains(
    map: &OrderedHashMap<MemberPath, VariableId>,
    path: &MemberPath,
) -> (res: bool)
    ensures
        res == has_key(path_vars(*map), *path),
{
    map.contains_key(path)
}

/// `OrderedHashMap::insert`: a key that is in the map keeps its place and gets the new value, any
/// other key comes last.
#[verifier::external_body]
pub(crate) fn path_vars_insert(
    map: &mut OrderedHashMap<MemberPath, VariableId>,
    path: MemberPath,
    var: VariableId,
)
    ensures
        path_vars(*final(map)) == inserted(path_vars(*old(map)), path, var),
{
    map.insert(path, var);
}

/// `OrderedHashMap::swap_remove`: the last entry takes the place of the one that is removed.
#[verifier::external_body]
pub(crate) fn path_vars_swap_remove(
    map: &mut OrderedHashMap<MemberPath, VariableId>,
    path: &MemberPath,
)
    ensures
        path_vars(*final(map)) == swap_removed(path_vars(*old(map)), *path),
{
    map.swap_remove(path);
}

/// `OrderedHashMap::iter`: the entries in their order, no two of them with the same key.
#[verifier::external_body]
pub(crate) fn path_vars_entries(map: &OrderedHashMap<MemberPath, VariableId>) -> (res: Vec<
    (MemberPath, VariableId),
>)
    ensures
        res@ == path_vars(*map),
        unique_keys(res@),
{
    map.iter().map(|(path, var)| (path.clone(), *var)).collect()
}

// Maps from member paths to types.

/// The entries of a map from member paths to types, in their order.
pub uninterp spec fn path_types(map: OrderedHashMap<MemberPath, Type>) -> Seq<(MemberPath, Type)>;

/// `OrderedHashMap::from_iter`: the pairs are inserted one after the other.
#[verifier::external_body]
pub(crate) fn path_types_from(pairs: Vec<(MemberPath, Type)>) -> (res: OrderedHashMap<
    MemberPath,
    Type,
>)
    ensures
        path_types(res) == collected(pairs@),
{
    pairs.into_iter().collect()
}

/// `OrderedHashMap::len`: the number of entries.
#[verifier::external_body]
pub(crate) fn path_types_len(map: &OrderedHashMap<MemberPath, Type>) -> (res: usize)
    ensures
        res == path_types(*map).len(),
{
    map.len()
}

/// `OrderedHashMap::values`: the values of the entries in their order.
#[verifier::external_body]
pub(crate) fn path_types_values(map: &OrderedHashMap<MemberPath, Type>) -> (res: Vec<Type>)
    ensures
        res@ == path_types(*map).map_values(|entry: (MemberPath, Type)| entry.1),
{
    map.values().cloned().collect()
}

// Maps from member paths to expressions.

/// The entries of a map from member paths to the expressions for them, in their order.
pub uninterp spec fn path_exprs(map: OrderedHashMap<MemberPath, ExprVarMemberPath>) -> Seq<
    (MemberPath, ExprVarMemberPath),
>;

/// `OrderedHashMap::into_iter`: the entries in their order, no two of them with the same key.
#[verifier::external_body]
pub(crate) fn path_exprs_entries(map: OrderedHashMap<MemberPath, ExprVarMemberPath>) -> (res: Vec<
    (MemberPath, ExprVarMemberPath),
>)
    ensures
        res@ == path_exprs(map),
        unique_keys(res@),
{
    map.into_iter().collect()
}

// Maps from members to variables.

/// The entries of a map from members to variables, in their order.
pub uninterp spec fn member_vars(map: OrderedHashMap<MemberId, VariableId>) -> Seq<
    (MemberId, VariableId),
>;

/// `OrderedHashMap::from_iter`: the pairs are inserted one after the other.
#[verifier::external_body]
pub(crate) fn member_vars_from(pairs: Vec<(MemberId, VariableId)>) -> (res: OrderedHashMap<
    MemberId,
    VariableId,
>)
    ensures
        member_vars(res) == collected(pairs@),
{
    pairs.into_iter().collect()
}

/// `OrderedHashMap::into_iter`: the entries in their order.
#[verifier::external_body]
pub(crate) fn member_vars_entries(map: OrderedHashMap<MemberId, VariableId>) -> (res: Vec<
    (MemberId, VariableId),
>)
    ensures
        res@ == member_vars(map),
{
    map.into_iter().collect()
}

// Maps from variables to their usages.

/// The entries of a map from variables to usages, in their order.
pub uninterp spec fn var_usages(map: OrderedHashMap<VariableId, VarUsage>) -> Seq<
    (VariableId, VarUsage),
>;

/// `OrderedHashMap::default`: the map is empty.
#[verifier::external_body]
pub(crate) fn var_usages_new() -> (res: OrderedHashMap<VariableId, VarUsage>)
    ensures
        var_usages(res) == Seq::<(VariableId, VarUsage)>::empty(),
{
    OrderedHashMap::default()
}

/// `OrderedHashMap::insert`: a key that is in the map keeps its place and gets the new value, any
/// other key comes last. The value that the key had before is returned.
#[verifier::external_body]
pub(crate) fn var_usages_insert(
    map: &mut OrderedHashMap<VariableId, VarUsage>,
    var: VariableId,
    usage: VarUsage,
) -> (res: Option<VarUsage>)
    ensures
        var_usages(*final(map)) == inserted(var_usages(*old(map)), var, usage),
        res == value_of(var_usages(*old(map)), var),
{
    map.insert(var, usage)
}

// Sets of member paths.

/// The elements of a set of member paths, in their order.
pub uninterp spec fn path_set(set: OrderedHashSet<MemberPath>) -> Seq<MemberPath>;

/// `OrderedHashSet::default`: the set is empty.
#[verifier::external_body]
pub(crate) fn path_set_new() -> (res: OrderedHashSet<MemberPath>)
    ensures
        path_set(res) == Seq::<MemberPath>::empty(),
{
    OrderedHashSet::default()
}

/// `OrderedHashSet::clone`: the clone has the same elements in the same order.
#[verifier::external_body]
pub(crate) fn path_set_clone(set: &OrderedHashSet<MemberPath>) -> (res: OrderedHashSet<MemberPath>)
    ensures
        path_set(res) == path_set(*set),
{
    set.clone()
}

/// `OrderedHashSet::insert`: an element that is in the set keeps its place, any other comes last.
#[verifier::external_body]
pub(crate) fn path_set_insert(set: &mut OrderedHashSet<MemberPath>, path: MemberPath)
    ensures
        path_set(*final(set)) == set_inserted(path_set(*old(set)), path),
{
    set.insert(path);
}

/// `OrderedHashSet::iter`: the elements in their order.
#[verifier::external_body]
pub(crate) fn path_set_elements(set: &OrderedHashSet<MemberPath>) -> (res: Vec<MemberPath>)
    ensures
        res@ == path_set(*set),
{
    set.iter().cloned().collect()
}

} // verus!
