//! Laws of the merging of sealed blocks.
use vstd::prelude::*;

use crate::context::{LoweringContext, StructTable};
use crate::generators::Emitted;
use crate::ids::{BlockId, ConcreteStructId, LocationId, MemberId, VarId, VariableId};
use crate::laws::builder::{
    goes_on, law_get_contents, law_steps_go_on, lemma_construct_goes_on, lemma_goes_on_refl,
    lemma_goes_on_trans,
};
use crate::laws::emission::{law_reads_and_writes_extend, lemma_extends_refl};
use crate::laws::mapping::{
    apart, are_siblings, depth, is_prefix, lemma_broken_available, lemma_broken_found, lemma_depth,
    lemma_lookup_stored, lemma_prefix_root, lemma_prefix_trans, lemma_stored_apart, root,
};
use crate::laws::meaning::{
    all_hold, contents_at, distinct_members, entries_fit, holds, ids_of, lemma_lookup_contents,
    lemma_member_in_place, lemma_member_position_is, lemma_scattered_members, lemma_stored_fits,
    member_index, members_fit, path_fits, value_fits, Contents, Shape, Valuation,
};
use crate::laws::planning::{is_change_of, law_plan};
use crate::laws::pruning::{law_pruned, law_pruned_covers, law_pruned_is_antichain};
use crate::member_path::{is_ancestor, MemberPath};
use crate::merge::{
    affected, close_blocks, leaf_paths, lemma_close_blocks_len, lemma_close_blocks_prefix,
    lemma_remap_paths_block, lower_unit, member_leaf_paths, member_of, merge, plan_blocks, pruned,
    reachable, remap, remap_paths, topmost, write_refs, Closed, SealedView,
};
use crate::objects::{BlockEndView, BlockView, VarUsage, Variable};
use crate::ordered::{has_key, lemma_position, lemma_position_is, position, value_of};
use crate::recomposer::member_ids;
use crate::refs::{broken, lookup, member_value, read, scattered_members, stored, Members, Value};
use crate::state::{read_ref, BuilderView, Outcome, State};
use crate::types::Type;

verus! {

/// Whether only variables have entries of their own. Builders introduce nothing else.
pub open spec fn rooted(entries: Seq<(MemberPath, Value)>) -> bool {
    forall|key: MemberPath| #[trigger] has_key(entries, key) ==> key is Var
}

/// Whether the values of a mapping are of the structs that their paths are of.
pub open spec fn well_shaped(
    db: StructTable,
    shape: Shape,
    entries: Seq<(MemberPath, Value)>,
) -> bool {
    &&& distinct_members(db)
    &&& rooted(entries)
    &&& entries_fit(db, shape, entries)
}

// Paths.

/// The path that is one member longer than a proper prefix.
proof fn lemma_next_step(prefix: MemberPath, path: MemberPath) -> (next: MemberPath)
    requires
        is_ancestor(prefix, path),
    ensures
        next is Member,
        *next->parent == prefix,
        is_prefix(next, path),
    decreases path,
{
    if *path->parent == prefix {
        path
    } else {
        let next = lemma_next_step(prefix, *path->parent);
        lemma_prefix_trans(next, *path->parent, path);
        next
    }
}

/// A prefix of a fitting path fits.
proof fn lemma_prefix_fits(db: StructTable, shape: Shape, prefix: MemberPath, path: MemberPath)
    requires
        path_fits(db, shape, path),
        is_prefix(prefix, path),
    ensures
        path_fits(db, shape, prefix),
    decreases path,
{
    if prefix != path {
        lemma_prefix_fits(db, shape, prefix, *path->parent);
    }
}

/// The variable of a path is a prefix of it.
pub(crate) proof fn lemma_root_is_prefix(path: MemberPath)
    ensures
        is_prefix(MemberPath::Var(root(path)), path),
    decreases path,
{
    if let MemberPath::Member { parent, .. } = path {
        lemma_root_is_prefix(*parent);
    }
}

/// Two fitting paths neither of which covers the other lead to different values.
pub proof fn lemma_apart(db: StructTable, shape: Shape, p: MemberPath, q: MemberPath)
    requires
        path_fits(db, shape, p),
        path_fits(db, shape, q),
        !is_prefix(p, q),
        !is_prefix(q, p),
    ensures
        apart(p, q),
    decreases p,
{
    if root(p) == root(q) {
        match p {
            MemberPath::Var(_) => {
                lemma_root_is_prefix(q);
            },
            MemberPath::Member { parent, .. } => {
                if is_prefix(*parent, q) {
                    let next = lemma_next_step(*parent, q);
                    lemma_prefix_fits(db, shape, next, q);
                    assert(are_siblings(p, next));
                } else {
                    if is_prefix(q, *parent) {
                        lemma_prefix_trans(q, *parent, p);
                    }
                    lemma_apart(db, shape, *parent, q);
                    let (a, b) = choose|a: MemberPath, b: MemberPath|
                        #[trigger] are_siblings(a, b) && is_prefix(a, *parent) && is_prefix(b, q);
                    lemma_prefix_trans(a, *parent, p);
                    assert(are_siblings(a, b) && is_prefix(a, p) && is_prefix(b, q));
                }
            },
        }
    }
}

/// Where a path fits and its variable has an entry, the path can be read.
pub proof fn law_fitting_paths_are_readable(
    db: StructTable,
    shape: Shape,
    entries: Seq<(MemberPath, Value)>,
    emitted: Emitted,
    path: MemberPath,
    location: LocationId,
)
    requires
        distinct_members(db),
        entries_fit(db, shape, entries),
        path_fits(db, shape, path),
        has_key(entries, MemberPath::Var(root(path))),
        read(db, entries, emitted, path, location).ok,
    ensures
        read(db, entries, emitted, path, location).var is Some,
{
    lemma_fitting_is_found(db, shape, entries, emitted, path, location);
    lemma_broken_found(db, entries, emitted, path, location);
}

pub(crate) proof fn lemma_fitting_is_found(
    db: StructTable,
    shape: Shape,
    entries: Seq<(MemberPath, Value)>,
    emitted: Emitted,
    path: MemberPath,
    location: LocationId,
)
    requires
        distinct_members(db),
        entries_fit(db, shape, entries),
        path_fits(db, shape, path),
        has_key(entries, MemberPath::Var(root(path))),
        broken(db, entries, emitted, path, location).ok,
    ensures
        ({
            let b = broken(db, entries, emitted, path, location);
            &&& b.found
            &&& entries_fit(db, shape, b.entries)
        }),
    decreases path,
{
    if !has_key(entries, path) {
        if let MemberPath::Member { parent, member_id, concrete_struct_id } = path {
            let above = broken(db, entries, emitted, *parent, location);
            let declared = db.members(concrete_struct_id).unwrap();
            let env: Valuation = |var: VariableId| Contents::Opaque(0);
            lemma_fitting_is_found(db, shape, entries, emitted, *parent, location);
            lemma_broken_found(db, entries, emitted, *parent, location);
            lemma_lookup_contents(db, shape, above.entries, env, *parent);
            lemma_member_position_is(declared, member_id);
            let i = member_index(db, path).unwrap();
            match lookup(above.entries, *parent).unwrap() {
                Value::Var(_) => {
                    let members = scattered_members(declared, above.emitted);
                    lemma_scattered_members(
                        db,
                        shape,
                        *parent,
                        concrete_struct_id,
                        above.emitted,
                        env,
                    );
                    lemma_member_in_place(
                        db,
                        shape,
                        *parent,
                        concrete_struct_id,
                        members,
                        member_id,
                        env,
                        i,
                    );
                    lemma_stored_fits(
                        db,
                        shape,
                        above.entries,
                        *parent,
                        Value::Scattered { concrete_struct_id, members: Box::new(members) },
                    );
                },
                Value::Scattered { members, .. } => {
                    lemma_member_in_place(
                        db,
                        shape,
                        *parent,
                        concrete_struct_id,
                        *members,
                        member_id,
                        env,
                        i,
                    );
                },
            }
        }
    }
}

// What a change affects.

proof fn lemma_topmost_rooted(entries: Seq<(MemberPath, Value)>, path: MemberPath)
    requires
        rooted(entries),
    ensures
        topmost(entries, path) == (if has_key(entries, MemberPath::Var(root(path))) {
            Some(MemberPath::Var(root(path)))
        } else {
            None
        }),
    decreases path,
{
    if let MemberPath::Member { parent, .. } = path {
        lemma_topmost_rooted(entries, *parent);
    }
}

/// Whether a list of members is another one from some member on.
spec fn is_suffix(all: Members, members: Members) -> bool
    decreases all,
{
    all == members || match all {
        Members::Nil => false,
        Members::Cons { rest, .. } => is_suffix(*rest, members),
    }
}

/// The first member of a part of the members is found by its id.
proof fn lemma_suffix_head(all: Members, members: Members)
    requires
        ids_of(all).no_duplicates(),
        is_suffix(all, members),
        members is Cons,
    ensures
        member_value(all, members->member_id) == Some(*members->value),
        ids_of(all).contains(members->member_id),
        is_suffix(all, *members->rest),
    decreases all,
{
    if all == members {
        assert(ids_of(all)[0] == members->member_id);
        assert(is_suffix(*all->rest, *members->rest));
    } else {
        let rest = *all->rest;
        let ids = ids_of(all);
        assert(ids =~= seq![all->member_id] + ids_of(rest));
        assert forall|i: int, j: int| 0 <= i < j < ids_of(rest).len() implies ids_of(rest)[i]
            != ids_of(rest)[j] by {
            assert(ids[i + 1] == ids_of(rest)[i]);
            assert(ids[j + 1] == ids_of(rest)[j]);
        }
        lemma_suffix_head(rest, members);
        let k = choose|k: int|
            0 <= k < ids_of(rest).len() && ids_of(rest)[k] == members->member_id;
        assert(ids[k + 1] == members->member_id);
        assert(ids[0] == all->member_id);
    }
}

/// The paths that stand for a value are paths that the mapping has, below the path of the value.
proof fn lemma_leaves(
    db: StructTable,
    shape: Shape,
    entries: Seq<(MemberPath, Value)>,
    path: MemberPath,
    value: Value,
    changed: MemberPath,
    leaf: MemberPath,
)
    requires
        well_shaped(db, shape, entries),
        path_fits(db, shape, path),
        lookup(entries, path) == Some(value),
        leaf_paths(path, value, changed).contains(leaf),
    ensures
        lookup(entries, leaf) is Some,
        path_fits(db, shape, leaf),
        is_prefix(path, leaf),
        leaf == changed || lookup(entries, leaf).unwrap() is Var,
    decreases value,
{
    if path != changed {
        if let Value::Scattered { concrete_struct_id, members } = value {
            let env: Valuation = |var: VariableId| Contents::Opaque(0);
            lemma_lookup_contents(db, shape, entries, env, path);
            lemma_member_leaves(
                db,
                shape,
                entries,
                path,
                concrete_struct_id,
                *members,
                *members,
                changed,
                leaf,
            );
        }
    }
}

proof fn lemma_member_leaves(
    db: StructTable,
    shape: Shape,
    entries: Seq<(MemberPath, Value)>,
    path: MemberPath,
    concrete_struct_id: ConcreteStructId,
    all: Members,
    members: Members,
    changed: MemberPath,
    leaf: MemberPath,
)
    requires
        well_shaped(db, shape, entries),
        path_fits(db, shape, path),
        lookup(entries, path) == Some(
            Value::Scattered { concrete_struct_id, members: Box::new(all) },
        ),
        value_fits(
            db,
            shape,
            path,
            Value::Scattered { concrete_struct_id, members: Box::new(all) },
        ),
        is_suffix(all, members),
        member_leaf_paths(path, concrete_struct_id, members, changed).contains(leaf),
    ensures
        lookup(entries, leaf) is Some,
        path_fits(db, shape, leaf),
        is_prefix(path, leaf),
        leaf == changed || lookup(entries, leaf).unwrap() is Var,
    decreases members,
{
    if let Members::Cons { member_id, value, rest } = members {
        let member_path = member_of(path, member_id, concrete_struct_id);
        let first = member_leaf_paths(path, concrete_struct_id, *rest, changed);
        let second = leaf_paths(member_path, *value, changed);
        let declared = db.members(concrete_struct_id).unwrap();
        lemma_suffix_head(all, members);
        let k = choose|k: int|
            0 <= k < (first + second).len() && (first + second)[k] == leaf;
        if k < first.len() {
            assert(first[k] == leaf);
            lemma_member_leaves(
                db,
                shape,
                entries,
                path,
                concrete_struct_id,
                all,
                *rest,
                changed,
                leaf,
            );
        } else {
            assert(second[k - first.len()] == leaf);
            assert(!has_key(entries, member_path));
            let i = choose|i: int| 0 <= i < ids_of(all).len() && ids_of(all)[i] == member_id;
            lemma_member_position_is(declared, member_id);
            assert(member_ids(declared)[i] == member_id);
            assert(member_index(db, member_path) is Some);
            lemma_leaves(db, shape, entries, member_path, *value, changed, leaf);
            assert(is_ancestor(path, member_path));
            lemma_prefix_trans(path, member_path, leaf);
        }
    }
}

/// One of the paths that stand for a value is a prefix of the path that changed.
proof fn lemma_leaf_covers(
    db: StructTable,
    shape: Shape,
    path: MemberPath,
    value: Value,
    changed: MemberPath,
) -> (leaf: MemberPath)
    requires
        distinct_members(db),
        path_fits(db, shape, changed),
        is_prefix(path, changed),
        value_fits(db, shape, path, value),
    ensures
        leaf_paths(path, value, changed).contains(leaf),
        is_prefix(leaf, changed),
    decreases value,
{
    if path == changed {
        assert(leaf_paths(path, value, changed)[0] == path);
        path
    } else {
        match value {
            Value::Var(_) => {
                assert(leaf_paths(path, value, changed)[0] == path);
                path
            },
            Value::Scattered { concrete_struct_id, members } => {
                let next = lemma_next_step(path, changed);
                let declared = db.members(concrete_struct_id).unwrap();
                lemma_prefix_fits(db, shape, next, changed);
                lemma_member_position_is(declared, next->member_id);
                let i = member_index(db, next).unwrap();
                assert(ids_of(*members)[i] == next->member_id);
                lemma_member_leaf_covers(
                    db,
                    shape,
                    path,
                    concrete_struct_id,
                    *members,
                    changed,
                    next,
                    i,
                )
            },
        }
    }
}

proof fn lemma_member_leaf_covers(
    db: StructTable,
    shape: Shape,
    path: MemberPath,
    concrete_struct_id: ConcreteStructId,
    members: Members,
    changed: MemberPath,
    next: MemberPath,
    i: int,
) -> (leaf: MemberPath)
    requires
        distinct_members(db),
        path_fits(db, shape, changed),
        next == member_of(path, next->member_id, concrete_struct_id),
        is_prefix(next, changed),
        members_fit(db, shape, path, concrete_struct_id, members),
        0 <= i < ids_of(members).len(),
        ids_of(members)[i] == next->member_id,
    ensures
        member_leaf_paths(path, concrete_struct_id, members, changed).contains(leaf),
        is_prefix(leaf, changed),
    decreases members,
{
    let member_id = members->member_id;
    let value = members->value;
    let rest = members->rest;
    assert(members is Cons);
    let first = member_leaf_paths(path, concrete_struct_id, *rest, changed);
    let second = leaf_paths(member_of(path, member_id, concrete_struct_id), *value, changed);
    assert(ids_of(members) =~= seq![member_id] + ids_of(*rest));
    if i == 0 {
        let leaf = lemma_leaf_covers(db, shape, next, *value, changed);
        let k = choose|k: int| 0 <= k < second.len() && second[k] == leaf;
        assert((first + second)[first.len() + k] == leaf);
        leaf
    } else {
        assert(ids_of(*rest)[i - 1] == next->member_id);
        let leaf = lemma_member_leaf_covers(
            db,
            shape,
            path,
            concrete_struct_id,
            *rest,
            changed,
            next,
            i - 1,
        );
        let k = choose|k: int| 0 <= k < first.len() && first[k] == leaf;
        assert((first + second)[k] == leaf);
        leaf
    }
}

/// What a change affects is mapped.
pub(crate) proof fn lemma_affected(
    db: StructTable,
    shape: Shape,
    entries: Seq<(MemberPath, Value)>,
    changed: MemberPath,
    leaf: MemberPath,
)
    requires
        well_shaped(db, shape, entries),
        affected(entries, changed).contains(leaf),
    ensures
        lookup(entries, leaf) is Some,
        path_fits(db, shape, leaf),
        leaf == changed || lookup(entries, leaf).unwrap() is Var,
        root(leaf) == root(changed),
{
    lemma_topmost_rooted(entries, changed);
    let top = MemberPath::Var(root(changed));
    lemma_leaves(db, shape, entries, top, value_of(entries, top).unwrap(), changed, leaf);
    lemma_prefix_root(top, leaf);
}

/// What is remapped is mapped: each remapped path is one that the builder of the callsite has a
/// value for. In particular, variables that are local to a block are not remapped. It is of a
/// variable that some block changed, and is itself a path that changed or one that the callsite has
/// as a whole.
pub proof fn law_remapped_is_mapped(
    db: StructTable,
    defs: Map<u64, Type>,
    shape: Shape,
    entries: Seq<(MemberPath, Value)>,
    variables: Seq<Variable>,
    sealed: Seq<SealedView>,
    location: LocationId,
    key: MemberPath,
)
    requires
        well_shaped(db, shape, entries),
        plan_blocks(db, defs, entries, variables, sealed, location).variables.len() <= usize::MAX,
        has_key(plan_blocks(db, defs, entries, variables, sealed, location).paths, key),
    ensures
        lookup(entries, key) is Some,
        path_fits(db, shape, key),
        exists|i: int, c: MemberPath|
            0 <= i < sealed.len() && #[trigger] is_change_of(sealed[i], c) && root(c) == root(key)
                && (c == key || lookup(entries, key).unwrap() is Var),
{
    law_plan(db, defs, entries, variables, sealed, location);
    let (i, c) = choose|i: int, c: MemberPath|
        0 <= i < sealed.len() && #[trigger] is_change_of(sealed[i], c) && affected(
            entries,
            c,
        ).contains(key);
    lemma_affected(db, shape, entries, c, key);
}

/// Every change is remapped: where a block that goes to the callsite changed a path of a variable
/// that the callsite has, the path or a prefix of it gets a new variable.
pub proof fn law_changes_are_remapped(
    db: StructTable,
    defs: Map<u64, Type>,
    shape: Shape,
    entries: Seq<(MemberPath, Value)>,
    variables: Seq<Variable>,
    sealed: Seq<SealedView>,
    location: LocationId,
    i: int,
    changed: MemberPath,
) -> (cover: MemberPath)
    requires
        well_shaped(db, shape, entries),
        plan_blocks(db, defs, entries, variables, sealed, location).variables.len() <= usize::MAX,
        0 <= i < sealed.len(),
        is_change_of(sealed[i], changed),
        has_key(entries, MemberPath::Var(root(changed))),
        path_fits(db, shape, changed),
    ensures
        is_prefix(cover, changed),
        has_key(
            pruned(plan_blocks(db, defs, entries, variables, sealed, location).paths),
            cover,
        ),
{
    let plan = plan_blocks(db, defs, entries, variables, sealed, location);
    let top = MemberPath::Var(root(changed));
    law_plan(db, defs, entries, variables, sealed, location);
    lemma_topmost_rooted(entries, changed);
    lemma_root_is_prefix(changed);
    let leaf = lemma_leaf_covers(
        db,
        shape,
        top,
        value_of(entries, top).unwrap(),
        changed,
    );
    assert(affected(entries, changed).contains(leaf));
    let cover = law_pruned_covers(plan.paths, leaf);
    lemma_prefix_trans(cover, leaf, changed);
    cover
}

/// The paths that stand for the members of a value are those that stand for each of them.
proof fn lemma_member_leaves_of(
    path: MemberPath,
    concrete_struct_id: ConcreteStructId,
    members: Members,
    changed: MemberPath,
    id: MemberId,
    leaf: MemberPath,
)
    requires
        member_value(members, id) is Some,
        leaf_paths(
            member_of(path, id, concrete_struct_id),
            member_value(members, id).unwrap(),
            changed,
        ).contains(leaf),
    ensures
        member_leaf_paths(path, concrete_struct_id, members, changed).contains(leaf),
    decreases members,
{
    if let Members::Cons { member_id, value, rest } = members {
        let first = member_leaf_paths(path, concrete_struct_id, *rest, changed);
        let second = leaf_paths(member_of(path, member_id, concrete_struct_id), *value, changed);
        if member_id == id {
            let k = choose|k: int| 0 <= k < second.len() && second[k] == leaf;
            assert((first + second)[first.len() + k] == leaf);
        } else {
            lemma_member_leaves_of(path, concrete_struct_id, *rest, changed, id, leaf);
            let k = choose|k: int| 0 <= k < first.len() && first[k] == leaf;
            assert((first + second)[k] == leaf);
        }
    }
}

/// Every part of a changed variable that is in a variable as a whole is covered by a path that
/// stands for the change.
proof fn lemma_whole_is_covered(
    db: StructTable,
    shape: Shape,
    entries: Seq<(MemberPath, Value)>,
    path: MemberPath,
    changed: MemberPath,
    whole: MemberPath,
) -> (leaf: MemberPath)
    requires
        well_shaped(db, shape, entries),
        path_fits(db, shape, whole),
        is_prefix(path, whole),
        lookup(entries, path) is Some,
        lookup(entries, whole) matches Some(Value::Var(_)),
    ensures
        leaf_paths(path, lookup(entries, path).unwrap(), changed).contains(leaf),
        is_prefix(leaf, whole),
    decreases depth(whole) - depth(path),
{
    let value = lookup(entries, path).unwrap();
    lemma_prefix_fits(db, shape, path, whole);
    if path == changed || value is Var {
        assert(leaf_paths(path, value, changed)[0] == path);
        path
    } else {
        let id = value->concrete_struct_id;
        let members = *value->members;
        let next = lemma_next_step(path, whole);
        lemma_prefix_fits(db, shape, next, whole);
        let env: Valuation = |var: VariableId| Contents::Opaque(0);
        lemma_lookup_contents(db, shape, entries, env, path);
        let declared = db.members(id).unwrap();
        lemma_member_position_is(declared, next->member_id);
        lemma_member_in_place(
            db,
            shape,
            path,
            id,
            members,
            next->member_id,
            env,
            member_index(db, next).unwrap(),
        );
        assert(!has_key(entries, next));
        assert(lookup(entries, next) == member_value(members, next->member_id));
        lemma_depth(path, whole);
        assert(depth(next) == depth(path) + 1);
        let leaf = lemma_whole_is_covered(db, shape, entries, next, changed, whole);
        assert(next == member_of(path, next->member_id, id));
        lemma_member_leaves_of(path, id, members, changed, next->member_id, leaf);
        leaf
    }
}

/// A change of a part of a variable remaps the whole variable: every part of it that the callsite
/// has in a variable gets a new one, by itself or as part of what it is a part of.
pub proof fn law_whole_variable_is_remapped(
    db: StructTable,
    defs: Map<u64, Type>,
    shape: Shape,
    entries: Seq<(MemberPath, Value)>,
    variables: Seq<Variable>,
    sealed: Seq<SealedView>,
    location: LocationId,
    i: int,
    changed: MemberPath,
    whole: MemberPath,
) -> (cover: MemberPath)
    requires
        well_shaped(db, shape, entries),
        plan_blocks(db, defs, entries, variables, sealed, location).variables.len() <= usize::MAX,
        0 <= i < sealed.len(),
        is_change_of(sealed[i], changed),
        root(whole) == root(changed),
        path_fits(db, shape, whole),
        lookup(entries, whole) matches Some(Value::Var(_)),
        has_key(entries, MemberPath::Var(root(changed))),
    ensures
        is_prefix(cover, whole),
        has_key(
            pruned(plan_blocks(db, defs, entries, variables, sealed, location).paths),
            cover,
        ),
{
    let plan = plan_blocks(db, defs, entries, variables, sealed, location);
    let top = MemberPath::Var(root(changed));
    law_plan(db, defs, entries, variables, sealed, location);
    lemma_topmost_rooted(entries, changed);
    lemma_root_is_prefix(whole);
    lemma_position(entries, top);
    assert(lookup(entries, top) == value_of(entries, top));
    let leaf = lemma_whole_is_covered(db, shape, entries, top, changed, whole);
    assert(affected(entries, changed).contains(leaf));
    let cover = law_pruned_covers(plan.paths, leaf);
    lemma_prefix_trans(cover, leaf, whole);
    cover
}

/// The paths that stand for a value come last member first: those of a later member are before those
/// of an earlier one.
pub proof fn law_leaves_in_order(
    path: MemberPath,
    concrete_struct_id: ConcreteStructId,
    members: Members,
    changed: MemberPath,
    early: MemberId,
    late: MemberId,
    x: MemberPath,
    y: MemberPath,
)
    requires
        path != changed,
        ids_of(members).no_duplicates(),
        member_value(members, early) is Some,
        member_value(members, late) is Some,
        exists|i: int, j: int|
            0 <= i < j < ids_of(members).len() && #[trigger] ids_of(members)[i] == early
                && #[trigger] ids_of(members)[j] == late,
        leaf_paths(
            member_of(path, early, concrete_struct_id),
            member_value(members, early).unwrap(),
            changed,
        ).contains(x),
        leaf_paths(
            member_of(path, late, concrete_struct_id),
            member_value(members, late).unwrap(),
            changed,
        ).contains(y),
    ensures
        ({
            let value = Value::Scattered { concrete_struct_id, members: Box::new(members) };
            let leaves = leaf_paths(path, value, changed);
            exists|a: int, b: int|
                0 <= a < b < leaves.len() && #[trigger] leaves[a] == y && #[trigger] leaves[b] == x
        }),
    decreases members,
{
    let value = Value::Scattered { concrete_struct_id, members: Box::new(members) };
    let leaves = leaf_paths(path, value, changed);
    assert(leaves == member_leaf_paths(path, concrete_struct_id, members, changed));
    if let Members::Cons { member_id, value: first_value, rest } = members {
        let behind = member_leaf_paths(path, concrete_struct_id, *rest, changed);
        let own = leaf_paths(
            member_of(path, member_id, concrete_struct_id),
            *first_value,
            changed,
        );
        let ids = ids_of(members);
        assert(ids =~= seq![member_id] + ids_of(*rest));
        assert(leaves == behind + own);
        let (i, j) = choose|i: int, j: int|
            0 <= i < j < ids.len() && #[trigger] ids[i] == early && #[trigger] ids[j] == late;
        assert(ids[0] == member_id);
        assert(ids[j] != ids[0]);
        assert(late != member_id);
        if early == member_id {
            lemma_member_leaves_of(path, concrete_struct_id, *rest, changed, late, y);
            let a = choose|a: int| 0 <= a < behind.len() && behind[a] == y;
            let b = choose|b: int| 0 <= b < own.len() && own[b] == x;
            assert(leaves[a] == y);
            assert(leaves[behind.len() + b] == x);
        } else {
            assert(i > 0);
            assert(ids_of(*rest).no_duplicates()) by {
                assert forall|a: int, b: int|
                    0 <= a < b < ids_of(*rest).len() implies ids_of(*rest)[a] != ids_of(
                    *rest,
                )[b] by {
                    assert(ids[a + 1] == ids_of(*rest)[a]);
                    assert(ids[b + 1] == ids_of(*rest)[b]);
                }
            }
            assert(ids_of(*rest)[i - 1] == early);
            assert(ids_of(*rest)[j - 1] == late);
            law_leaves_in_order(
                path,
                concrete_struct_id,
                *rest,
                changed,
                early,
                late,
                x,
                y,
            );
            let rest_value = Value::Scattered { concrete_struct_id, members: rest };
            assert(leaf_paths(path, rest_value, changed) == behind);
            let (a, b) = choose|a: int, b: int|
                0 <= a < b < behind.len() && #[trigger] behind[a] == y && #[trigger] behind[b]
                    == x;
            assert(leaves[a] == y);
            assert(leaves[b] == x);
        }
    }
}

// The builder of the callsite.

/// Whether paths have different variables, are mapped, and lead to different values.
pub open spec fn can_be_applied(
    db: StructTable,
    shape: Shape,
    entries: Seq<(MemberPath, Value)>,
    paths: Seq<(MemberPath, VariableId)>,
) -> bool {
    &&& forall|i: int|
        0 <= i < paths.len() ==> lookup(entries, (#[trigger] paths[i]).0) is Some && path_fits(
            db,
            shape,
            paths[i].0,
        )
    &&& forall|i: int, j: int|
        0 <= i < paths.len() && 0 <= j < paths.len() && i != j ==> apart(
            (#[trigger] paths[i]).0,
            (#[trigger] paths[j]).0,
        )
    &&& forall|i: int, j: int|
        0 <= i < j < paths.len() ==> (#[trigger] paths[i]).1 != (#[trigger] paths[j]).1
}

/// What is left of a plan can be applied to the builder of the callsite.
pub proof fn law_plan_can_be_applied(
    db: StructTable,
    defs: Map<u64, Type>,
    shape: Shape,
    entries: Seq<(MemberPath, Value)>,
    variables: Seq<Variable>,
    sealed: Seq<SealedView>,
    location: LocationId,
)
    requires
        well_shaped(db, shape, entries),
        plan_blocks(db, defs, entries, variables, sealed, location).variables.len() <= usize::MAX,
    ensures
        can_be_applied(
            db,
            shape,
            entries,
            pruned(plan_blocks(db, defs, entries, variables, sealed, location).paths),
        ),
{
    let plan = plan_blocks(db, defs, entries, variables, sealed, location);
    let paths = pruned(plan.paths);
    law_plan(db, defs, entries, variables, sealed, location);
    assert forall|i: int| 0 <= i < paths.len() implies {
        &&& has_key(plan.paths, (#[trigger] paths[i]).0)
        &&& value_of(plan.paths, paths[i].0) == Some(paths[i].1)
        &&& has_key(paths, paths[i].0)
        &&& lookup(entries, paths[i].0) is Some
        &&& path_fits(db, shape, paths[i].0)
    } by {
        law_pruned(plan.paths, paths[i].0);
        lemma_position_is(paths, i);
        assert(value_of(paths, paths[i].0) == Some(paths[i].1));
        law_remapped_is_mapped(
            db,
            defs,
            shape,
            entries,
            variables,
            sealed,
            location,
            paths[i].0,
        );
    }
    law_pruned(plan.paths, MemberPath::Var(VarId(0)));
    assert forall|i: int, j: int|
        0 <= i < paths.len() && 0 <= j < paths.len() && i != j implies apart(
        (#[trigger] paths[i]).0,
        (#[trigger] paths[j]).0,
    ) by {
        law_pruned_is_antichain(plan.paths, paths[i].0, paths[j].0);
        law_pruned_is_antichain(plan.paths, paths[j].0, paths[i].0);
        assert(paths[i].0 != paths[j].0);
        lemma_apart(db, shape, paths[i].0, paths[j].0);
    }
    assert forall|i: int, j: int| 0 <= i < j < paths.len() implies (#[trigger] paths[i]).1 != (
    #[trigger] paths[j]).1 by {
        lemma_position(plan.paths, paths[i].0);
        lemma_position(plan.paths, paths[j].0);
        let a = position(plan.paths, paths[i].0).unwrap();
        let b = position(plan.paths, paths[j].0).unwrap();
        assert(plan.paths[a] == paths[i]);
        assert(plan.paths[b] == paths[j]);
        assert(paths[i].0 != paths[j].0);
        if a < b {
            assert(plan.paths[a].1 != plan.paths[b].1);
        } else {
            assert(plan.paths[b].1 != plan.paths[a].1);
        }
    }
}

/// The builder of the callsite goes on with the new variables: each remapped path is in its new
/// variable, what is apart from all of them stays where it was, and nothing is emitted.
pub proof fn law_remapping_is_applied(
    db: StructTable,
    shape: Shape,
    before: State,
    paths: Seq<(MemberPath, VariableId)>,
    location: LocationId,
)
    requires
        can_be_applied(db, shape, before.builder.semantics, paths),
    ensures
        ({
            let w = write_refs(db, before, paths, location);
            let after = w.state.builder.semantics;
            &&& w.ok
            &&& w.state.emitted() == before.emitted()
            &&& w.state.builder.block_id == before.builder.block_id
            &&& distinct_members(db) && entries_fit(db, shape, before.builder.semantics)
                ==> entries_fit(db, shape, after)
            &&& forall|i: int|
                0 <= i < paths.len() ==> lookup(after, (#[trigger] paths[i]).0) == Some(
                    Value::Var(paths[i].1),
                )
            &&& forall|q: MemberPath|
                lookup(before.builder.semantics, q) is Some && (forall|i: int|
                    0 <= i < paths.len() ==> apart((#[trigger] paths[i]).0, q))
                    ==> #[trigger] lookup(after, q) == lookup(before.builder.semantics, q)
        }),
    decreases paths.len(),
{
    if paths.len() > 0 {
        let rest = paths.drop_last();
        let n = paths.len() - 1;
        let (path, var) = paths.last();
        assert forall|i: int| 0 <= i < n implies #[trigger] rest[i] == paths[i] by {}
        assert(can_be_applied(db, shape, before.builder.semantics, rest)) by {
            assert forall|i: int, j: int|
                0 <= i < rest.len() && 0 <= j < rest.len() && i != j implies apart(
                (#[trigger] rest[i]).0,
                (#[trigger] rest[j]).0,
            ) by {
                assert(apart(paths[i].0, paths[j].0));
            }
            assert forall|i: int, j: int| 0 <= i < j < rest.len() implies (
            #[trigger] rest[i]).1 != (#[trigger] rest[j]).1 by {
                assert(paths[i].1 != paths[j].1);
            }
            assert forall|i: int| 0 <= i < rest.len() implies lookup(
                before.builder.semantics,
                (#[trigger] rest[i]).0,
            ) is Some && path_fits(db, shape, rest[i].0) by {
                assert(lookup(before.builder.semantics, paths[i].0) is Some);
            }
        }
        law_remapping_is_applied(db, shape, before, rest, location);
        let first = write_refs(db, before, rest, location).state;
        let after = write_refs(db, before, paths, location).state;
        let entries = first.builder.semantics;
        assert forall|i: int| 0 <= i < rest.len() implies apart((#[trigger] rest[i]).0, path) by {
            assert(apart(paths[i].0, paths[n].0));
        }
        assert(lookup(before.builder.semantics, paths[n].0) is Some);
        assert(lookup(entries, path) == lookup(before.builder.semantics, path));
        lemma_broken_available(db, entries, first.emitted(), path, location);
        lemma_lookup_stored(entries, path, Value::Var(var));
        assert(after.builder.semantics == stored(entries, path, Value::Var(var)));
        if distinct_members(db) && entries_fit(db, shape, before.builder.semantics) {
            lemma_stored_fits(db, shape, entries, path, Value::Var(var));
        }
        assert forall|i: int| 0 <= i < paths.len() implies lookup(
            after.builder.semantics,
            (#[trigger] paths[i]).0,
        ) == Some(Value::Var(paths[i].1)) by {
            if i < n {
                assert(lookup(entries, rest[i].0) == Some(Value::Var(rest[i].1)));
                assert(apart(paths[n].0, paths[i].0));
                lemma_stored_apart(entries, path, Value::Var(var), paths[i].0);
            }
        }
        assert forall|q: MemberPath|
            lookup(before.builder.semantics, q) is Some && (forall|i: int|
                0 <= i < paths.len() ==> apart((#[trigger] paths[i]).0, q)) implies #[trigger] lookup(
            after.builder.semantics,
            q,
        ) == lookup(before.builder.semantics, q) by {
            assert forall|i: int| 0 <= i < rest.len() implies apart(
                (#[trigger] rest[i]).0,
                q,
            ) by {
                assert(apart(paths[i].0, q));
            }
            assert(lookup(entries, q) == lookup(before.builder.semantics, q));
            assert(apart(paths[n].0, q));
            lemma_stored_apart(entries, path, Value::Var(var), q);
        }
    }
}

// The blocks that end.

/// What a block that ends hands over: for each remapped path its new variable, and what it is
/// remapped to in the block. The latter has the contents that the path has in the block.
pub proof fn law_remap_contents(
    db: StructTable,
    shape: Shape,
    before: State,
    paths: Seq<(MemberPath, VariableId)>,
    location: LocationId,
    env: Valuation,
    q: MemberPath,
)
    requires
        distinct_members(db),
        entries_fit(db, shape, before.builder.semantics),
        forall|i: int| 0 <= i < paths.len() ==> path_fits(db, shape, (#[trigger] paths[i]).0),
        remap_paths(db, before, paths, location).ok,
        all_hold(remap_paths(db, before, paths, location).state.builder.statements, env),
    ensures
        ({
            let r = remap_paths(db, before, paths, location);
            let semantics = before.builder.semantics;
            &&& r.value.len() == paths.len()
            &&& forall|i: int|
                0 <= i < paths.len() ==> {
                    &&& (#[trigger] r.value[i]).0 == paths[i].1
                    &&& env(r.value[i].1.var_id) == contents_at(db, semantics, env, paths[i].0)
                }
            &&& contents_at(db, r.state.builder.semantics, env, q) == contents_at(
                db,
                semantics,
                env,
                q,
            )
            &&& entries_fit(db, shape, r.state.builder.semantics)
            &&& all_hold(before.builder.statements, env)
        }),
    decreases paths.len(),
{
    if paths.len() > 0 {
        let rest = paths.drop_last();
        let (path, var) = paths.last();
        let first = remap_paths(db, before, rest, location);
        let r = remap_paths(db, before, paths, location);
        assert forall|i: int| 0 <= i < rest.len() implies path_fits(
            db,
            shape,
            (#[trigger] rest[i]).0,
        ) by {
            assert(path_fits(db, shape, paths[i].0));
        }
        assert(path_fits(db, shape, paths[paths.len() - 1].0));
        lemma_all_hold_before_read(db, first.state, path, location, env);
        law_remap_contents(db, shape, before, rest, location, env, q);
        law_remap_contents(db, shape, before, rest, location, env, path);
        law_get_contents(db, shape, first.state, path, location, env, q);
        assert forall|i: int| 0 <= i < paths.len() implies {
            &&& (#[trigger] r.value[i]).0 == paths[i].1
            &&& env(r.value[i].1.var_id) == contents_at(
                db,
                before.builder.semantics,
                env,
                paths[i].0,
            )
        } by {
            if i < rest.len() {
                assert(r.value[i] == first.value[i]);
                assert(rest[i] == paths[i]);
            }
        }
    }
}

pub(crate) proof fn lemma_all_hold_before_read(
    db: StructTable,
    before: State,
    path: MemberPath,
    location: LocationId,
    env: Valuation,
)
    requires
        all_hold(read_ref(db, before, path, location).state.builder.statements, env),
    ensures
        all_hold(before.builder.statements, env),
{
    let after = read_ref(db, before, path, location).state;
    law_reads_and_writes_extend(
        db,
        before.builder.semantics,
        before.emitted(),
        path,
        VariableId(0),
        location,
    );
    assert forall|i: int| 0 <= i < before.builder.statements.len() implies holds(
        #[trigger] before.builder.statements[i],
        env,
    ) by {
        assert(before.builder.statements[i] == after.builder.statements[i]);
    }
}

/// The variables of a remapping are those of the remapped paths, in their order, each once. That a
/// variable would be remapped twice never happens.
pub proof fn law_remapped_once(
    db: StructTable,
    before: State,
    paths: Seq<(MemberPath, VariableId)>,
    location: LocationId,
    var: VariableId,
)
    requires
        forall|i: int| 0 <= i < paths.len() ==> (#[trigger] paths[i]).1 != var,
    ensures
        remap_paths(db, before, paths, location).value.map_values(
            |entry: (VariableId, VarUsage)| entry.0,
        ) == paths.map_values(|entry: (MemberPath, VariableId)| entry.1),
        !has_key(remap_paths(db, before, paths, location).value, var),
    decreases paths.len(),
{
    let r = remap_paths(db, before, paths, location);
    if paths.len() > 0 {
        let rest = paths.drop_last();
        assert forall|i: int| 0 <= i < rest.len() implies (#[trigger] rest[i]).1 != var by {
            assert(paths[i].1 != var);
        }
        law_remapped_once(db, before, rest, location, var);
        let first = remap_paths(db, before, rest, location).value;
        assert(first.map_values(|entry: (VariableId, VarUsage)| entry.0).len() == rest.len());
        assert(r.value.map_values(|entry: (VariableId, VarUsage)| entry.0)
            =~= first.map_values(|entry: (VariableId, VarUsage)| entry.0).push(paths.last().1));
        assert(paths.map_values(|entry: (MemberPath, VariableId)| entry.1)
            =~= rest.map_values(|entry: (MemberPath, VariableId)| entry.1).push(
            paths.last().1,
        ));
        assert(paths[paths.len() - 1].1 != var);
        lemma_position(first, var);
        lemma_position(r.value, var);
        if let Some(i) = position(r.value, var) {
            if i < first.len() {
                assert(first[i] == r.value[i]);
            }
        }
    } else {
        assert(r.value.map_values(|entry: (VariableId, VarUsage)| entry.0) =~= paths.map_values(
            |entry: (MemberPath, VariableId)| entry.1,
        ));
    }
}

/// Whether no two of the blocks that go to the callsite are the same.
pub open spec fn distinct_blocks(sealed: Seq<SealedView>) -> bool {
    forall|i: int, j: int|
        0 <= i < j < sealed.len() && sealed[i] is GotoCallsite && sealed[j] is GotoCallsite
            ==> (#[trigger] sealed[i])->builder.block_id != (#[trigger] sealed[j])->builder.block_id
}

/// What the `i`-th of the blocks hands over when it ends, after those before it ended.
pub open spec fn handed_over(
    db: StructTable,
    closed: Closed,
    sealed: Seq<SealedView>,
    target: BlockId,
    expr: Option<VariableId>,
    paths: Seq<(MemberPath, VariableId)>,
    location: LocationId,
    i: int,
) -> Outcome<Seq<(VariableId, VarUsage)>> {
    let before = close_blocks(db, closed, sealed.take(i), target, expr, paths, location);
    remap(
        db,
        State { builder: sealed[i]->builder, variables: before.variables },
        sealed[i]->expr,
        expr,
        paths,
        location,
    )
}

proof fn lemma_remap_block(
    db: StructTable,
    before: State,
    returned: Option<VarUsage>,
    expr: Option<VariableId>,
    paths: Seq<(MemberPath, VariableId)>,
    location: LocationId,
)
    ensures
        remap(db, before, returned, expr, paths, location).state.builder.block_id
            == before.builder.block_id,
{
    lemma_remap_paths_block(db, before, paths, location);
}

/// A block that goes to the callsite ends by going to the target, with what it hands over.
proof fn lemma_block_is_closed(
    db: StructTable,
    closed: Closed,
    sealed: Seq<SealedView>,
    target: BlockId,
    expr: Option<VariableId>,
    paths: Seq<(MemberPath, VariableId)>,
    location: LocationId,
    i: int,
)
    requires
        distinct_blocks(sealed),
        close_blocks(db, closed, sealed, target, expr, paths, location).ok,
        0 <= i < sealed.len(),
        sealed[i] is GotoCallsite,
    ensures
        ({
            let after = close_blocks(db, closed, sealed, target, expr, paths, location).blocks;
            let r = handed_over(db, closed, sealed, target, expr, paths, location, i);
            after[sealed[i]->builder.block_id.0 as int] == Some(
                BlockView {
                    statements: r.state.builder.statements,
                    end: BlockEndView::Goto(target, r.value),
                },
            )
        }),
    decreases sealed.len(),
{
    let rest = sealed.drop_last();
    let n = sealed.len() - 1;
    let first = close_blocks(db, closed, rest, target, expr, paths, location);
    assert(first.ok);
    lemma_close_blocks_len(db, closed, rest, target, expr, paths, location);
    if let SealedView::GotoCallsite { builder, expr: returned } = sealed[n] {
        lemma_remap_block(
            db,
            State { builder, variables: first.variables },
            returned,
            expr,
            paths,
            location,
        );
    }
    if i < n {
        lemma_distinct_blocks_of_rest(sealed);
        assert(rest[i] == sealed[i]);
        assert(rest.take(i) =~= sealed.take(i));
        lemma_block_is_closed(db, closed, rest, target, expr, paths, location, i);
        // The block exists.
        lemma_close_blocks_prefix(db, closed, sealed, target, expr, paths, location, i + 1);
        assert(sealed.take(i + 1).drop_last() =~= sealed.take(i));
        assert(sealed.take(i + 1).last() == sealed[i]);
        lemma_close_blocks_len(db, closed, sealed.take(i), target, expr, paths, location);
        if sealed[n] is GotoCallsite {
            assert(sealed[i]->builder.block_id != sealed[n]->builder.block_id);
        }
    } else {
        assert(sealed.take(n) =~= rest);
    }
}

proof fn lemma_distinct_blocks_of_rest(sealed: Seq<SealedView>)
    requires
        distinct_blocks(sealed),
        sealed.len() > 0,
    ensures
        distinct_blocks(sealed.drop_last()),
{
    let rest = sealed.drop_last();
    assert forall|i: int, j: int|
        0 <= i < j < rest.len() && rest[i] is GotoCallsite && rest[j] is GotoCallsite implies (
    #[trigger] rest[i])->builder.block_id != (#[trigger] rest[j])->builder.block_id by {
        assert(sealed[i]->builder.block_id != sealed[j]->builder.block_id);
    }
}

/// A block that is not one of those that go to the callsite is left alone.
proof fn lemma_block_is_left_alone(
    db: StructTable,
    closed: Closed,
    sealed: Seq<SealedView>,
    target: BlockId,
    expr: Option<VariableId>,
    paths: Seq<(MemberPath, VariableId)>,
    location: LocationId,
    b: int,
)
    requires
        close_blocks(db, closed, sealed, target, expr, paths, location).ok,
        0 <= b < closed.blocks.len(),
        forall|i: int|
            0 <= i < sealed.len() && (#[trigger] sealed[i]) is GotoCallsite
                ==> sealed[i]->builder.block_id.0 != b,
    ensures
        close_blocks(db, closed, sealed, target, expr, paths, location).blocks[b]
            == closed.blocks[b],
    decreases sealed.len(),
{
    if sealed.len() > 0 {
        let rest = sealed.drop_last();
        let n = sealed.len() - 1;
        let first = close_blocks(db, closed, rest, target, expr, paths, location);
        assert(first.ok);
        assert forall|i: int|
            0 <= i < rest.len() && (#[trigger] rest[i])
                is GotoCallsite implies rest[i]->builder.block_id.0 != b by {
            assert(rest[i] == sealed[i]);
        }
        lemma_close_blocks_len(db, closed, rest, target, expr, paths, location);
        lemma_block_is_left_alone(db, closed, rest, target, expr, paths, location, b);
        if let SealedView::GotoCallsite { builder, expr: returned } = sealed[n] {
            lemma_remap_block(
                db,
                State { builder, variables: first.variables },
                returned,
                expr,
                paths,
                location,
            );
        }
    }
}

/// Every block that goes to the callsite ends by going to the target, with what it hands over. The
/// other blocks are left alone.
pub proof fn law_blocks_are_closed(
    db: StructTable,
    closed: Closed,
    sealed: Seq<SealedView>,
    target: BlockId,
    expr: Option<VariableId>,
    paths: Seq<(MemberPath, VariableId)>,
    location: LocationId,
)
    requires
        distinct_blocks(sealed),
        close_blocks(db, closed, sealed, target, expr, paths, location).ok,
    ensures
        ({
            let after = close_blocks(db, closed, sealed, target, expr, paths, location).blocks;
            &&& after.len() == closed.blocks.len()
            &&& forall|i: int|
                0 <= i < sealed.len() && (#[trigger] sealed[i]) is GotoCallsite ==> {
                    let r = handed_over(db, closed, sealed, target, expr, paths, location, i);
                    after[sealed[i]->builder.block_id.0 as int] == Some(
                        BlockView {
                            statements: r.state.builder.statements,
                            end: BlockEndView::Goto(target, r.value),
                        },
                    )
                }
            &&& forall|b: int|
                0 <= b < closed.blocks.len() && (forall|i: int|
                    0 <= i < sealed.len() && (#[trigger] sealed[i]) is GotoCallsite
                        ==> sealed[i]->builder.block_id.0 != b) ==> #[trigger] after[b]
                    == closed.blocks[b]
        }),
{
    let after = close_blocks(db, closed, sealed, target, expr, paths, location).blocks;
    lemma_close_blocks_len(db, closed, sealed, target, expr, paths, location);
    assert forall|i: int| 0 <= i < sealed.len() && (#[trigger] sealed[i]) is GotoCallsite implies {
        let r = handed_over(db, closed, sealed, target, expr, paths, location, i);
        after[sealed[i]->builder.block_id.0 as int] == Some(
            BlockView {
                statements: r.state.builder.statements,
                end: BlockEndView::Goto(target, r.value),
            },
        )
    } by {
        lemma_block_is_closed(db, closed, sealed, target, expr, paths, location, i);
    }
    assert forall|b: int|
        0 <= b < closed.blocks.len() && (forall|i: int|
            0 <= i < sealed.len() && (#[trigger] sealed[i]) is GotoCallsite
                ==> sealed[i]->builder.block_id.0 != b) implies #[trigger] after[b]
        == closed.blocks[b] by {
        lemma_block_is_left_alone(db, closed, sealed, target, expr, paths, location, b);
    }
}

// Merges as a whole.

/// What a merge remaps: the paths, each with its new variable.
pub open spec fn remapped_paths(
    ctx: LoweringContext,
    builder: BuilderView,
    sealed: Seq<SealedView>,
    location: LocationId,
) -> Seq<(MemberPath, VariableId)> {
    pruned(
        plan_blocks(
            ctx.db,
            ctx.semantic_defs@,
            builder.semantics,
            ctx.variables@,
            sealed,
            location,
        ).paths,
    )
}

/// What a merge does to the builder of the callsite: each remapped path is in its new variable from
/// then on, what is apart from all of them stays where it was, and no statement is emitted there.
pub proof fn law_merge_callsite(
    ctx: LoweringContext,
    shape: Shape,
    builder: BuilderView,
    sealed: Seq<SealedView>,
    location: LocationId,
)
    requires
        well_shaped(ctx.db, shape, builder.semantics),
        merge(ctx, builder, sealed, location).ok,
        merge(ctx, builder, sealed, location).state.variables.len() <= usize::MAX,
    ensures
        ({
            let m = merge(ctx, builder, sealed, location);
            let paths = remapped_paths(ctx, builder, sealed, location);
            let after = m.state.builder.semantics;
            &&& m.state.builder.statements == builder.statements
            &&& m.state.builder.block_id == builder.block_id
            &&& entries_fit(ctx.db, shape, after)
            &&& forall|i: int|
                0 <= i < paths.len() ==> lookup(after, (#[trigger] paths[i]).0) == Some(
                    Value::Var(paths[i].1),
                )
            &&& forall|q: MemberPath|
                lookup(builder.semantics, q) is Some && (forall|i: int|
                    0 <= i < paths.len() ==> apart((#[trigger] paths[i]).0, q))
                    ==> #[trigger] lookup(after, q) == lookup(builder.semantics, q)
        }),
{
    lemma_merge_variables(ctx, builder, sealed, location);
    law_plan_can_be_applied(
        ctx.db,
        ctx.semantic_defs@,
        shape,
        builder.semantics,
        ctx.variables@,
        sealed,
        location,
    );
    let paths = remapped_paths(ctx, builder, sealed, location);
    let plan = plan_blocks(
        ctx.db,
        ctx.semantic_defs@,
        builder.semantics,
        ctx.variables@,
        sealed,
        location,
    );
    let closed = close_blocks(
        ctx.db,
        Closed { variables: plan.variables, blocks: ctx.blocks@.push(None), ok: plan.ok },
        sealed,
        BlockId(ctx.blocks@.len() as usize),
        plan.expr,
        paths,
        location,
    );
    law_remapping_is_applied(
        ctx.db,
        shape,
        State { builder, variables: closed.variables },
        paths,
        location,
    );
}

/// What is remapped, and what the blocks hand over, only adds variables.
pub(crate) proof fn lemma_merge_variables(
    ctx: LoweringContext,
    builder: BuilderView,
    sealed: Seq<SealedView>,
    location: LocationId,
)
    ensures
        plan_blocks(
            ctx.db,
            ctx.semantic_defs@,
            builder.semantics,
            ctx.variables@,
            sealed,
            location,
        ).variables.len() <= merge(ctx, builder, sealed, location).state.variables.len(),
{
    let plan = plan_blocks(
        ctx.db,
        ctx.semantic_defs@,
        builder.semantics,
        ctx.variables@,
        sealed,
        location,
    );
    let paths = pruned(plan.paths);
    let start = Closed {
        variables: plan.variables,
        blocks: ctx.blocks@.push(None),
        ok: plan.ok,
    };
    let target = BlockId(ctx.blocks@.len() as usize);
    lemma_close_blocks_variables(ctx.db, start, sealed, target, plan.expr, paths, location);
    let closed = close_blocks(ctx.db, start, sealed, target, plan.expr, paths, location);
    lemma_write_refs_variables(
        ctx.db,
        State { builder, variables: closed.variables },
        paths,
        location,
    );
}

pub(crate) proof fn lemma_write_refs_variables(
    db: StructTable,
    before: State,
    paths: Seq<(MemberPath, VariableId)>,
    location: LocationId,
)
    ensures
        before.variables.len() <= write_refs(db, before, paths, location).state.variables.len(),
    decreases paths.len(),
{
    if paths.len() > 0 {
        lemma_write_refs_variables(db, before, paths.drop_last(), location);
        let first = write_refs(db, before, paths.drop_last(), location).state;
        law_steps_go_on(db, first, paths.last().0, paths.last().1, location);
    }
}

pub(crate) proof fn lemma_remap_paths_go_on(
    db: StructTable,
    before: State,
    paths: Seq<(MemberPath, VariableId)>,
    location: LocationId,
)
    ensures
        goes_on(before, remap_paths(db, before, paths, location).state),
    decreases paths.len(),
{
    lemma_goes_on_refl(before);
    if paths.len() > 0 {
        lemma_remap_paths_go_on(db, before, paths.drop_last(), location);
        let first = remap_paths(db, before, paths.drop_last(), location).state;
        law_steps_go_on(db, first, paths.last().0, VariableId(0), location);
        lemma_goes_on_trans(before, first, remap_paths(db, before, paths, location).state);
    }
}

/// A block that ends goes on until it ends.
pub proof fn law_remap_goes_on(
    db: StructTable,
    before: State,
    returned: Option<VarUsage>,
    expr: Option<VariableId>,
    paths: Seq<(MemberPath, VariableId)>,
    location: LocationId,
)
    ensures
        goes_on(before, remap(db, before, returned, expr, paths, location).state),
{
    let p = remap_paths(db, before, paths, location);
    lemma_remap_paths_go_on(db, before, paths, location);
    if let Some(var) = expr {
        if returned is None {
            let unit_location = p.state.variables[var.0 as int].location;
            lemma_construct_goes_on(p.state, Seq::empty(), Type::unit(), unit_location);
            lemma_goes_on_trans(before, p.state, lower_unit(p.state, unit_location).state);
        }
    }
}

pub(crate) proof fn lemma_close_blocks_variables(
    db: StructTable,
    closed: Closed,
    sealed: Seq<SealedView>,
    target: BlockId,
    expr: Option<VariableId>,
    paths: Seq<(MemberPath, VariableId)>,
    location: LocationId,
)
    ensures
        closed.variables.is_prefix_of(
            close_blocks(db, closed, sealed, target, expr, paths, location).variables,
        ),
    decreases sealed.len(),
{
    if sealed.len() > 0 {
        let rest = sealed.drop_last();
        lemma_close_blocks_variables(db, closed, rest, target, expr, paths, location);
        let first = close_blocks(db, closed, rest, target, expr, paths, location);
        let after = close_blocks(db, closed, sealed, target, expr, paths, location);
        if let SealedView::GotoCallsite { builder, expr: returned } = sealed.last() {
            law_remap_goes_on(
                db,
                State { builder, variables: first.variables },
                returned,
                expr,
                paths,
                location,
            );
            assert(closed.variables =~= after.variables.subrange(
                0,
                closed.variables.len() as int,
            ));
        }
    } else {
        assert(closed.variables =~= closed.variables.subrange(0, closed.variables.len() as int));
    }
}

/// What a merge does to the blocks: there is one more, which is not set yet, and every block that
/// goes to the callsite goes there instead, with what it hands over. The other blocks are left
/// alone.
pub proof fn law_merge_blocks(
    ctx: LoweringContext,
    builder: BuilderView,
    sealed: Seq<SealedView>,
    location: LocationId,
)
    requires
        merge(ctx, builder, sealed, location).ok,
        distinct_blocks(sealed),
        forall|i: int|
            0 <= i < sealed.len() && (#[trigger] sealed[i]) is GotoCallsite
                ==> sealed[i]->builder.block_id.0 < ctx.blocks@.len(),
        ctx.blocks@.len() <= usize::MAX,
    ensures
        ({
            let m = merge(ctx, builder, sealed, location);
            &&& m.blocks.len() == ctx.blocks@.len() + 1
            &&& m.following.0 == ctx.blocks@.len()
            &&& m.blocks[m.following.0 as int] is None
            &&& forall|i: int|
                0 <= i < sealed.len() && (#[trigger] sealed[i]) is GotoCallsite ==> {
                    let r = block_hands_over(ctx, builder, sealed, location, i);
                    m.blocks[sealed[i]->builder.block_id.0 as int] == Some(
                        BlockView {
                            statements: r.state.builder.statements,
                            end: BlockEndView::Goto(m.following, r.value),
                        },
                    )
                }
            &&& forall|b: int|
                0 <= b < ctx.blocks@.len() && (forall|i: int|
                    0 <= i < sealed.len() && (#[trigger] sealed[i]) is GotoCallsite
                        ==> sealed[i]->builder.block_id.0 != b) ==> #[trigger] m.blocks[b]
                    == ctx.blocks@[b]
        }),
{
    let plan = plan_blocks(
        ctx.db,
        ctx.semantic_defs@,
        builder.semantics,
        ctx.variables@,
        sealed,
        location,
    );
    law_blocks_are_closed(
        ctx.db,
        Closed { variables: plan.variables, blocks: ctx.blocks@.push(None), ok: plan.ok },
        sealed,
        BlockId(ctx.blocks@.len() as usize),
        plan.expr,
        pruned(plan.paths),
        location,
    );
}

/// What the `i`-th of the blocks hands over in a merge.
pub open spec fn block_hands_over(
    ctx: LoweringContext,
    builder: BuilderView,
    sealed: Seq<SealedView>,
    location: LocationId,
    i: int,
) -> Outcome<Seq<(VariableId, VarUsage)>> {
    let plan = plan_blocks(
        ctx.db,
        ctx.semantic_defs@,
        builder.semantics,
        ctx.variables@,
        sealed,
        location,
    );
    handed_over(
        ctx.db,
        Closed { variables: plan.variables, blocks: ctx.blocks@.push(None), ok: plan.ok },
        sealed,
        BlockId(ctx.blocks@.len() as usize),
        plan.expr,
        pruned(plan.paths),
        location,
        i,
    )
}

/// What follows sees what the block that ran left: with the new variables as that block hands them
/// over, each remapped path has the contents that it had at the end of the block.
pub proof fn law_merge_contents(
    ctx: LoweringContext,
    shape: Shape,
    builder: BuilderView,
    sealed: Seq<SealedView>,
    location: LocationId,
    i: int,
    block_env: Valuation,
    env: Valuation,
    k: int,
)
    requires
        well_shaped(ctx.db, shape, builder.semantics),
        merge(ctx, builder, sealed, location).ok,
        merge(ctx, builder, sealed, location).state.variables.len() <= usize::MAX,
        0 <= i < sealed.len(),
        sealed[i] is GotoCallsite,
        entries_fit(ctx.db, shape, sealed[i]->builder.semantics),
        all_hold(
            block_hands_over(ctx, builder, sealed, location, i).state.builder.statements,
            block_env,
        ),
        ({
            let r = block_hands_over(ctx, builder, sealed, location, i).value;
            forall|j: int|
                0 <= j < r.len() ==> env((#[trigger] r[j]).0) == block_env(r[j].1.var_id)
        }),
        0 <= k < remapped_paths(ctx, builder, sealed, location).len(),
    ensures
        ({
            let path = remapped_paths(ctx, builder, sealed, location)[k].0;
            contents_at(
                ctx.db,
                merge(ctx, builder, sealed, location).state.builder.semantics,
                env,
                path,
            ) == contents_at(ctx.db, sealed[i]->builder.semantics, block_env, path)
        }),
{
    let m = merge(ctx, builder, sealed, location);
    let paths = remapped_paths(ctx, builder, sealed, location);
    let plan = plan_blocks(
        ctx.db,
        ctx.semantic_defs@,
        builder.semantics,
        ctx.variables@,
        sealed,
        location,
    );
    let start = Closed {
        variables: plan.variables,
        blocks: ctx.blocks@.push(None),
        ok: plan.ok,
    };
    let target = BlockId(ctx.blocks@.len() as usize);
    let before = close_blocks(
        ctx.db,
        start,
        sealed.take(i),
        target,
        plan.expr,
        paths,
        location,
    );
    let state = State { builder: sealed[i]->builder, variables: before.variables };
    let p = remap_paths(ctx.db, state, paths, location);
    let r = block_hands_over(ctx, builder, sealed, location, i);
    law_merge_callsite(ctx, shape, builder, sealed, location);
    lemma_merge_variables(ctx, builder, sealed, location);
    law_plan_can_be_applied(
        ctx.db,
        ctx.semantic_defs@,
        shape,
        builder.semantics,
        ctx.variables@,
        sealed,
        location,
    );
    // The block can hand over what it does.
    lemma_close_blocks_prefix(
        ctx.db,
        start,
        sealed,
        target,
        plan.expr,
        paths,
        location,
        i + 1,
    );
    assert(sealed.take(i + 1).drop_last() =~= sealed.take(i));
    assert(sealed.take(i + 1).last() == sealed[i]);
    assert(p.ok);
    assert(p.state.builder.statements.is_prefix_of(r.state.builder.statements)) by {
        lemma_extends_refl(p.state.emitted());
        if let Some(var) = plan.expr {
            let unit_location = p.state.variables[var.0 as int].location;
            lemma_construct_goes_on(p.state, Seq::empty(), Type::unit(), unit_location);
        }
    }
    assert forall|j: int| 0 <= j < p.state.builder.statements.len() implies holds(
        #[trigger] p.state.builder.statements[j],
        block_env,
    ) by {
        assert(p.state.builder.statements[j] == r.state.builder.statements[j]);
    }
    assert(lookup(builder.semantics, paths[k].0) is Some);
    law_remap_contents(ctx.db, shape, state, paths, location, block_env, paths[k].0);
    assert(r.value[k] == p.value[k]);
    assert(lookup(m.state.builder.semantics, paths[k].0) == Some(Value::Var(paths[k].1)));
    lemma_lookup_contents(ctx.db, shape, m.state.builder.semantics, env, paths[k].0);
}

// Blocks that have ended.

/// The blocks that go to the callsite, in their order.
pub open spec fn going_on(sealed: Seq<SealedView>) -> Seq<SealedView> {
    sealed.filter(|block: SealedView| block is GotoCallsite)
}

/// A block that has already ended has no part in a merge, wherever it stands: the outcome is that of
/// merging the blocks that go to the callsite, and whether there is one of those is the same.
pub proof fn law_ended_blocks_have_no_part(
    ctx: LoweringContext,
    builder: BuilderView,
    sealed: Seq<SealedView>,
    location: LocationId,
)
    ensures
        merge(ctx, builder, sealed, location) == merge(
            ctx,
            builder,
            going_on(sealed),
            location,
        ),
        reachable(sealed) == reachable(going_on(sealed)),
{
    let db = ctx.db;
    let defs = ctx.semantic_defs@;
    let plan = plan_blocks(db, defs, builder.semantics, ctx.variables@, sealed, location);
    lemma_plan_going_on(db, defs, builder.semantics, ctx.variables@, sealed, location);
    lemma_close_going_on(
        db,
        Closed { variables: plan.variables, blocks: ctx.blocks@.push(None), ok: plan.ok },
        sealed,
        BlockId(ctx.blocks@.len() as usize),
        plan.expr,
        pruned(plan.paths),
        location,
    );
    lemma_reachable_going_on(sealed);
}

proof fn lemma_plan_going_on(
    db: StructTable,
    defs: Map<u64, Type>,
    entries: Seq<(MemberPath, Value)>,
    variables: Seq<Variable>,
    sealed: Seq<SealedView>,
    location: LocationId,
)
    ensures
        plan_blocks(db, defs, entries, variables, going_on(sealed), location) == plan_blocks(
            db,
            defs,
            entries,
            variables,
            sealed,
            location,
        ),
    decreases sealed.len(),
{
    reveal(Seq::filter);
    if sealed.len() > 0 {
        let rest = going_on(sealed.drop_last());
        lemma_plan_going_on(db, defs, entries, variables, sealed.drop_last(), location);
        if sealed.last() is GotoCallsite {
            assert(going_on(sealed) == rest.push(sealed.last()));
            assert(rest.push(sealed.last()).drop_last() =~= rest);
        } else {
            assert(going_on(sealed) == rest);
        }
    }
}

proof fn lemma_close_going_on(
    db: StructTable,
    closed: Closed,
    sealed: Seq<SealedView>,
    target: BlockId,
    expr: Option<VariableId>,
    paths: Seq<(MemberPath, VariableId)>,
    location: LocationId,
)
    ensures
        close_blocks(db, closed, going_on(sealed), target, expr, paths, location)
            == close_blocks(db, closed, sealed, target, expr, paths, location),
    decreases sealed.len(),
{
    reveal(Seq::filter);
    if sealed.len() > 0 {
        let rest = going_on(sealed.drop_last());
        lemma_close_going_on(db, closed, sealed.drop_last(), target, expr, paths, location);
        if sealed.last() is GotoCallsite {
            assert(going_on(sealed) == rest.push(sealed.last()));
            assert(rest.push(sealed.last()).drop_last() =~= rest);
        } else {
            assert(going_on(sealed) == rest);
        }
    }
}

proof fn lemma_reachable_going_on(sealed: Seq<SealedView>)
    ensures
        reachable(sealed) == reachable(going_on(sealed)),
    decreases sealed.len(),
{
    reveal(Seq::filter);
    if sealed.len() > 0 {
        let rest = going_on(sealed.drop_last());
        lemma_reachable_going_on(sealed.drop_last());
        if sealed.last() is GotoCallsite {
            assert(sealed[sealed.len() - 1] is GotoCallsite);
            assert(going_on(sealed)[rest.len() as int] is GotoCallsite);
        } else {
            assert(going_on(sealed) == rest);
            if reachable(sealed) {
                let i = choose|i: int|
                    0 <= i < sealed.len() && (#[trigger] sealed[i]) is GotoCallsite;
                assert(sealed.drop_last()[i] is GotoCallsite);
            }
            if reachable(sealed.drop_last()) {
                let i = choose|i: int|
                    0 <= i < sealed.drop_last().len() && (
                    #[trigger] sealed.drop_last()[i]) is GotoCallsite;
                assert(sealed[i] is GotoCallsite);
            }
        }
    }
}

} // verus!
