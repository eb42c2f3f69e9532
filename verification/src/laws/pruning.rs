//! What pruning leaves of a remapping.
use vstd::prelude::*;

use crate::ids::VariableId;
use crate::laws::mapping::is_prefix;
use crate::member_path::{is_ancestor, MemberPath};
use crate::merge::{has_ancestor_key, prune_keys, pruned};
use crate::ordered::{has_key, lemma_position, lemma_swap_removed, position, unique_keys, value_of};

verus! {

/// A path has a key above it if and only if some proper prefix of it is a key.
pub proof fn lemma_has_ancestor_key(paths: Seq<(MemberPath, VariableId)>, path: MemberPath)
    ensures
        has_ancestor_key(paths, path) <==> exists|a: MemberPath|
            is_ancestor(a, path) && #[trigger] has_key(paths, a),
    decreases path,
{
    if let MemberPath::Member { parent, .. } = path {
        lemma_has_ancestor_key(paths, *parent);
        if has_ancestor_key(paths, path) {
            if has_key(paths, *parent) {
                assert(is_ancestor(*parent, path));
            } else {
                let a = choose|a: MemberPath|
                    is_ancestor(a, *parent) && #[trigger] has_key(paths, a);
                assert(is_ancestor(a, path));
            }
        }
    }
}

/// Where a path has keys above it, one of them has no key above it.
proof fn lemma_topmost_ancestor_key(
    paths: Seq<(MemberPath, VariableId)>,
    path: MemberPath,
) -> (top: MemberPath)
    requires
        has_ancestor_key(paths, path),
    ensures
        is_ancestor(top, path),
        has_key(paths, top),
        !has_ancestor_key(paths, top),
    decreases path,
{
    let parent = *path->parent;
    if has_ancestor_key(paths, parent) {
        lemma_topmost_ancestor_key(paths, parent)
    } else {
        parent
    }
}

/// What is left once some of the keys were looked at.
proof fn lemma_prune_keys(paths: Seq<(MemberPath, VariableId)>, n: int)
    requires
        unique_keys(paths),
        0 <= n <= paths.len(),
    ensures
        ({
            let left = prune_keys(paths, paths.take(n));
            &&& unique_keys(left)
            &&& forall|key: MemberPath|
                #[trigger] value_of(left, key) == (if has_ancestor_key(paths, key) && has_key(
                    paths.take(n),
                    key,
                ) {
                    None
                } else {
                    value_of(paths, key)
                })
        }),
    decreases n,
{
    if n > 0 {
        let keys = paths.take(n);
        let before = prune_keys(paths, paths.take(n - 1));
        let left = prune_keys(paths, keys);
        let key = paths[n - 1].0;
        assert(keys.drop_last() =~= paths.take(n - 1));
        lemma_prune_keys(paths, n - 1);
        // Whether a key has another above it does not change.
        assert(has_ancestor_key(before, key) == has_ancestor_key(paths, key)) by {
            lemma_has_ancestor_key(before, key);
            lemma_has_ancestor_key(paths, key);
            if has_ancestor_key(before, key) {
                let a = choose|a: MemberPath|
                    is_ancestor(a, key) && #[trigger] has_key(before, a);
                assert(value_of(before, a) is Some);
                assert(has_key(paths, a));
            }
            if has_ancestor_key(paths, key) {
                let top = lemma_topmost_ancestor_key(paths, key);
                assert(value_of(before, top) == value_of(paths, top));
                assert(has_key(before, top));
            }
        }
        if has_ancestor_key(paths, key) {
            lemma_swap_removed(before, key);
        }
        assert forall|k: MemberPath|
            #[trigger] value_of(left, k) == (if has_ancestor_key(paths, k) && has_key(keys, k) {
                None
            } else {
                value_of(paths, k)
            }) by {
            lemma_position(keys, k);
            lemma_position(paths.take(n - 1), k);
            assert(has_key(keys, k) == (has_key(paths.take(n - 1), k) || k == key)) by {
                assert(keys[n - 1].0 == key);
                if let Some(i) = position(paths.take(n - 1), k) {
                    assert(keys[i] == paths.take(n - 1)[i]);
                }
                if let Some(i) = position(keys, k) {
                    if i < n - 1 {
                        assert(keys[i] == paths.take(n - 1)[i]);
                    }
                }
            }
            assert(value_of(before, k) == (if has_ancestor_key(paths, k) && has_key(
                paths.take(n - 1),
                k,
            ) {
                None
            } else {
                value_of(paths, k)
            }));
            if has_ancestor_key(paths, key) && k != key {
                assert(value_of(left, k) == value_of(before, k));
            }
        }
    } else {
        assert(paths.take(0) =~= Seq::empty());
        assert forall|k: MemberPath| !has_key(paths.take(0), k) by {}
    }
}

/// Pruning leaves exactly the paths that no other covers: a path keeps its variable if no proper
/// prefix of it is remapped, and goes otherwise.
pub proof fn law_pruned(paths: Seq<(MemberPath, VariableId)>, key: MemberPath)
    requires
        unique_keys(paths),
    ensures
        value_of(pruned(paths), key) == (if has_ancestor_key(paths, key) {
            None
        } else {
            value_of(paths, key)
        }),
        unique_keys(pruned(paths)),
{
    lemma_prune_keys(paths, paths.len() as int);
    assert(paths.take(paths.len() as int) =~= paths);
    assert(value_of(pruned(paths), key) == (if has_ancestor_key(paths, key) && has_key(
        paths,
        key,
    ) {
        None
    } else {
        value_of(paths, key)
    }));
}

/// No two paths that pruning leaves cover each other.
pub proof fn law_pruned_is_antichain(
    paths: Seq<(MemberPath, VariableId)>,
    a: MemberPath,
    b: MemberPath,
)
    requires
        unique_keys(paths),
        has_key(pruned(paths), a),
        has_key(pruned(paths), b),
    ensures
        !is_ancestor(a, b),
{
    law_pruned(paths, a);
    law_pruned(paths, b);
    lemma_has_ancestor_key(paths, b);
    if is_ancestor(a, b) {
        assert(has_key(paths, a));
    }
}

/// Pruning uncovers nothing: a path that was remapped is still remapped, or a proper prefix of it
/// is.
pub proof fn law_pruned_covers(
    paths: Seq<(MemberPath, VariableId)>,
    key: MemberPath,
) -> (cover: MemberPath)
    requires
        unique_keys(paths),
        has_key(paths, key),
    ensures
        is_prefix(cover, key),
        has_key(pruned(paths), cover),
{
    if has_ancestor_key(paths, key) {
        let top = lemma_topmost_ancestor_key(paths, key);
        law_pruned(paths, top);
        top
    } else {
        law_pruned(paths, key);
        key
    }
}

} // verus!
