//! What the merging of blocks remaps.
use vstd::prelude::*;

use crate::context::{path_ty, StructTable};
use crate::ids::{LocationId, VariableId};
use crate::member_path::MemberPath;
use crate::merge::{affected, plan_blocks, plan_changes, plan_expr, plan_paths, Plan, SealedView};
use crate::objects::Variable;
use crate::ordered::{has_key, lemma_position, position, unique_keys};
use crate::refs::Value;
use crate::types::Type;

verus! {

// The new variables.

/// Whether the variables of a plan are new ones, and all of them different. Those of `base` stay.
pub open spec fn plan_valid(plan: Plan, base: Seq<Variable>) -> bool {
    &&& base.is_prefix_of(plan.variables)
    &&& unique_keys(plan.paths)
    &&& forall|i: int|
        0 <= i < plan.paths.len() ==> base.len() <= (#[trigger] plan.paths[i]).1.0
            < plan.variables.len()
    &&& forall|i: int, j: int|
        0 <= i < j < plan.paths.len() ==> (#[trigger] plan.paths[i]).1 != (
        #[trigger] plan.paths[j]).1
    &&& plan.expr matches Some(var) ==> base.len() <= var.0 < plan.variables.len()
    &&& plan.expr matches Some(var) ==> forall|i: int|
        0 <= i < plan.paths.len() ==> (#[trigger] plan.paths[i]).1 != var
}

/// Whether each variable of a plan that is for a path has the type of the path.
pub open spec fn plan_typed(
    db: StructTable,
    defs: Map<u64, Type>,
    plan: Plan,
    location: LocationId,
) -> bool {
    forall|i: int|
        0 <= i < plan.paths.len() ==> plan.variables[(#[trigger] plan.paths[i]).1.0 as int] == (
        Variable { ty: path_ty(db, defs, plan.paths[i].0).unwrap(), location })
}

/// Whether everything that is planned in `before` is planned in `after`.
pub open spec fn plan_extends(before: Plan, after: Plan) -> bool {
    &&& before.variables.is_prefix_of(after.variables)
    &&& before.paths.is_prefix_of(after.paths)
    &&& before.expr is Some ==> after.expr == before.expr
}

proof fn lemma_plan_extends_refl(plan: Plan)
    ensures
        plan_extends(plan, plan),
{
    assert(plan.variables =~= plan.variables.subrange(0, plan.variables.len() as int));
    assert(plan.paths =~= plan.paths.subrange(0, plan.paths.len() as int));
}

proof fn lemma_plan_extends_trans(a: Plan, b: Plan, c: Plan)
    requires
        plan_extends(a, b),
        plan_extends(b, c),
    ensures
        plan_extends(a, c),
{
    assert(a.variables =~= c.variables.subrange(0, a.variables.len() as int));
    assert(a.paths =~= c.paths.subrange(0, a.paths.len() as int));
}

/// A key of the entries from the start is a key of all.
proof fn lemma_key_of_prefix<K, V>(part: Seq<(K, V)>, all: Seq<(K, V)>, key: K)
    requires
        part.is_prefix_of(all),
        has_key(part, key),
    ensures
        has_key(all, key),
{
    lemma_position(part, key);
    lemma_position(all, key);
    let i = position(part, key).unwrap();
    assert(all[i] == part[i]);
}

proof fn lemma_plan_paths_valid(
    db: StructTable,
    defs: Map<u64, Type>,
    base: Seq<Variable>,
    plan: Plan,
    paths: Seq<MemberPath>,
    location: LocationId,
)
    requires
        plan_valid(plan, base),
        plan_typed(db, defs, plan, location),
        plan_paths(db, defs, plan, paths, location).variables.len() <= usize::MAX,
    ensures
        ({
            let after = plan_paths(db, defs, plan, paths, location);
            &&& plan_valid(after, base)
            &&& plan_typed(db, defs, after, location)
            &&& plan_extends(plan, after)
            &&& forall|i: int|
                0 <= i < paths.len() ==> has_key(after.paths, #[trigger] paths[i])
            &&& forall|key: MemberPath| #[trigger]
                has_key(after.paths, key) ==> has_key(plan.paths, key) || paths.contains(key)
        }),
    decreases paths.len(),
{
    lemma_plan_extends_refl(plan);
    if paths.len() > 0 {
        let p = plan_paths(db, defs, plan, paths.drop_last(), location);
        let after = plan_paths(db, defs, plan, paths, location);
        let path = paths.last();
        assert(p.variables.len() <= after.variables.len());
        lemma_plan_paths_valid(db, defs, base, plan, paths.drop_last(), location);
        lemma_position(p.paths, path);
        if !has_key(p.paths, path) {
            let n = p.paths.len() as int;
            assert(after.paths[n] == (path, VariableId(p.variables.len() as usize)));
            assert forall|i: int| 0 <= i < n implies #[trigger] after.paths[i] == p.paths[i] by {}
            assert(base =~= after.variables.subrange(0, base.len() as int));
            assert forall|i: int|
                0 <= i < after.paths.len() implies after.variables[(
            #[trigger] after.paths[i]).1.0 as int] == (Variable {
                ty: path_ty(db, defs, after.paths[i].0).unwrap(),
                location,
            }) by {
                if i < n {
                    assert(p.variables[p.paths[i].1.0 as int] == after.variables[p.paths[
                        i
                    ].1.0 as int]);
                }
            }
            assert(plan_extends(p, after)) by {
                assert(p.variables =~= after.variables.subrange(0, p.variables.len() as int));
                assert(p.paths =~= after.paths.subrange(0, p.paths.len() as int));
            }
        } else {
            lemma_plan_extends_refl(p);
        }
        lemma_plan_extends_trans(plan, p, after);
        assert(has_key(after.paths, path)) by {
            lemma_position(after.paths, path);
            if !has_key(p.paths, path) {
                assert(after.paths[p.paths.len() as int].0 == path);
            }
        }
        assert forall|i: int| 0 <= i < paths.len() implies has_key(
            after.paths,
            #[trigger] paths[i],
        ) by {
            if i < paths.len() - 1 {
                assert(paths.drop_last()[i] == paths[i]);
                lemma_key_of_prefix(p.paths, after.paths, paths[i]);
            }
        }
        assert forall|key: MemberPath| #[trigger] has_key(after.paths, key) implies has_key(
            plan.paths,
            key,
        ) || paths.contains(key) by {
            lemma_position(after.paths, key);
            lemma_position(p.paths, key);
            let i = position(after.paths, key).unwrap();
            if i < p.paths.len() {
                assert(p.paths[i].0 == key);
                assert(has_key(p.paths, key));
                if paths.drop_last().contains(key) {
                    let j = choose|j: int|
                        0 <= j < paths.drop_last().len() && paths.drop_last()[j] == key;
                    assert(paths[j] == key);
                }
            } else {
                assert(paths[paths.len() - 1] == key);
            }
        }
    }
}

proof fn lemma_plan_changes_valid(
    db: StructTable,
    defs: Map<u64, Type>,
    entries: Seq<(MemberPath, Value)>,
    base: Seq<Variable>,
    plan: Plan,
    changes: Seq<MemberPath>,
    location: LocationId,
)
    requires
        plan_valid(plan, base),
        plan_typed(db, defs, plan, location),
        plan_changes(db, defs, entries, plan, changes, location).variables.len() <= usize::MAX,
    ensures
        ({
            let after = plan_changes(db, defs, entries, plan, changes, location);
            &&& plan_valid(after, base)
            &&& plan_typed(db, defs, after, location)
            &&& plan_extends(plan, after)
            &&& forall|i: int, leaf: MemberPath|
                0 <= i < changes.len() && #[trigger] affected(
                    entries,
                    changes[i],
                ).contains(leaf) ==> has_key(after.paths, leaf)
            &&& forall|key: MemberPath| #[trigger]
                has_key(after.paths, key) ==> has_key(plan.paths, key) || exists|i: int|
                    0 <= i < changes.len() && #[trigger] affected(entries, changes[i]).contains(
                        key,
                    )
        }),
    decreases changes.len(),
{
    lemma_plan_extends_refl(plan);
    if changes.len() > 0 {
        let p = plan_changes(db, defs, entries, plan, changes.drop_last(), location);
        let after = plan_changes(db, defs, entries, plan, changes, location);
        let leaves = affected(entries, changes.last());
        lemma_plan_paths_grow(db, defs, p, leaves, location);
        lemma_plan_changes_valid(
            db,
            defs,
            entries,
            base,
            plan,
            changes.drop_last(),
            location,
        );
        lemma_plan_paths_valid(db, defs, base, p, leaves, location);
        lemma_plan_extends_trans(plan, p, after);
        assert forall|i: int, leaf: MemberPath|
            0 <= i < changes.len() && #[trigger] affected(entries, changes[i]).contains(
                leaf,
            ) implies has_key(after.paths, leaf) by {
            if i < changes.len() - 1 {
                assert(changes.drop_last()[i] == changes[i]);
                assert(has_key(p.paths, leaf));
                lemma_key_of_prefix(p.paths, after.paths, leaf);
            } else {
                let j = choose|j: int| 0 <= j < leaves.len() && leaves[j] == leaf;
                assert(has_key(after.paths, leaves[j]));
            }
        }
        assert forall|key: MemberPath| #[trigger] has_key(after.paths, key) implies has_key(
            plan.paths,
            key,
        ) || exists|i: int|
            0 <= i < changes.len() && #[trigger] affected(entries, changes[i]).contains(key) by {
            if leaves.contains(key) {
                assert(affected(entries, changes[changes.len() - 1]).contains(key));
            } else if !has_key(plan.paths, key) {
                let i = choose|i: int|
                    0 <= i < changes.drop_last().len() && #[trigger] affected(
                        entries,
                        changes.drop_last()[i],
                    ).contains(key);
                assert(changes.drop_last()[i] == changes[i]);
            }
        }
    }
}

/// Planning never takes variables back.
proof fn lemma_plan_paths_grow(
    db: StructTable,
    defs: Map<u64, Type>,
    plan: Plan,
    paths: Seq<MemberPath>,
    location: LocationId,
)
    ensures
        plan.variables.len() <= plan_paths(db, defs, plan, paths, location).variables.len(),
    decreases paths.len(),
{
    if paths.len() > 0 {
        lemma_plan_paths_grow(db, defs, plan, paths.drop_last(), location);
    }
}

proof fn lemma_plan_changes_grow(
    db: StructTable,
    defs: Map<u64, Type>,
    entries: Seq<(MemberPath, Value)>,
    plan: Plan,
    changes: Seq<MemberPath>,
    location: LocationId,
)
    ensures
        plan.variables.len() <= plan_changes(
            db,
            defs,
            entries,
            plan,
            changes,
            location,
        ).variables.len(),
    decreases changes.len(),
{
    if changes.len() > 0 {
        lemma_plan_changes_grow(db, defs, entries, plan, changes.drop_last(), location);
        lemma_plan_paths_grow(
            db,
            defs,
            plan_changes(db, defs, entries, plan, changes.drop_last(), location),
            affected(entries, changes.last()),
            location,
        );
    }
}

/// The variables that a merge plans are new, all of them different, and of the types of their
/// paths. What a block changed of the mapping is planned, and nothing else is.
pub proof fn law_plan(
    db: StructTable,
    defs: Map<u64, Type>,
    entries: Seq<(MemberPath, Value)>,
    variables: Seq<Variable>,
    sealed: Seq<SealedView>,
    location: LocationId,
)
    requires
        plan_blocks(db, defs, entries, variables, sealed, location).variables.len() <= usize::MAX,
    ensures
        ({
            let plan = plan_blocks(db, defs, entries, variables, sealed, location);
            &&& plan_valid(plan, variables)
            &&& plan_typed(db, defs, plan, location)
            &&& forall|i: int, c: MemberPath, leaf: MemberPath|
                0 <= i < sealed.len() && #[trigger] is_change_of(sealed[i], c)
                    && #[trigger] affected(entries, c).contains(leaf) ==> has_key(
                    plan.paths,
                    leaf,
                )
            &&& forall|key: MemberPath| #[trigger]
                has_key(plan.paths, key) ==> exists|i: int, c: MemberPath|
                    0 <= i < sealed.len() && #[trigger] is_change_of(sealed[i], c) && affected(
                        entries,
                        c,
                    ).contains(key)
        }),
    decreases sealed.len(),
{
    let plan = plan_blocks(db, defs, entries, variables, sealed, location);
    if sealed.len() == 0 {
        assert(variables =~= plan.variables.subrange(0, variables.len() as int));
    } else {
        let before = plan_blocks(db, defs, entries, variables, sealed.drop_last(), location);
        let last = sealed[sealed.len() - 1];
        match last {
            SealedView::GotoCallsite { builder, expr } => {
                let with_expr = plan_expr(before, expr);
                lemma_plan_changes_grow(
                    db,
                    defs,
                    entries,
                    with_expr,
                    builder.changed,
                    location,
                );
                law_plan(db, defs, entries, variables, sealed.drop_last(), location);
                assert(variables =~= with_expr.variables.subrange(0, variables.len() as int));
                assert(plan_valid(with_expr, variables));
                assert(plan_typed(db, defs, with_expr, location)) by {
                    assert forall|i: int|
                        0 <= i < with_expr.paths.len() implies with_expr.variables[(
                    #[trigger] with_expr.paths[i]).1.0 as int] == (Variable {
                        ty: path_ty(db, defs, with_expr.paths[i].0).unwrap(),
                        location,
                    }) by {
                        assert(before.variables[before.paths[i].1.0 as int]
                            == with_expr.variables[before.paths[i].1.0 as int]);
                    }
                }
                lemma_plan_changes_valid(
                    db,
                    defs,
                    entries,
                    variables,
                    with_expr,
                    builder.changed,
                    location,
                );
                assert forall|i: int, c: MemberPath, leaf: MemberPath|
                    0 <= i < sealed.len() && #[trigger] is_change_of(sealed[i], c)
                        && #[trigger] affected(entries, c).contains(leaf) implies has_key(
                    plan.paths,
                    leaf,
                ) by {
                    if i < sealed.len() - 1 {
                        assert(sealed.drop_last()[i] == sealed[i]);
                        assert(has_key(before.paths, leaf));
                        lemma_key_of_prefix(with_expr.paths, plan.paths, leaf);
                    } else {
                        let j = choose|j: int|
                            0 <= j < builder.changed.len() && builder.changed[j] == c;
                        assert(affected(entries, builder.changed[j]).contains(leaf));
                    }
                }
                assert forall|key: MemberPath| #[trigger] has_key(
                    plan.paths,
                    key,
                ) implies exists|i: int, c: MemberPath|
                    0 <= i < sealed.len() && #[trigger] is_change_of(sealed[i], c) && affected(
                        entries,
                        c,
                    ).contains(key) by {
                    if has_key(with_expr.paths, key) {
                        assert(has_key(before.paths, key));
                        let (i, c) = choose|i: int, c: MemberPath|
                            0 <= i < sealed.drop_last().len() && #[trigger] is_change_of(
                                sealed.drop_last()[i],
                                c,
                            ) && affected(entries, c).contains(key);
                        assert(sealed.drop_last()[i] == sealed[i]);
                        assert(is_change_of(sealed[i], c));
                    } else {
                        let j = choose|j: int|
                            0 <= j < builder.changed.len() && #[trigger] affected(
                                entries,
                                builder.changed[j],
                            ).contains(key);
                        assert(builder.changed.contains(builder.changed[j]));
                        assert(is_change_of(sealed[sealed.len() - 1], builder.changed[j]));
                    }
                }
            },
            SealedView::Ends(_) => {
                law_plan(db, defs, entries, variables, sealed.drop_last(), location);
                assert forall|i: int, c: MemberPath, leaf: MemberPath|
                    0 <= i < sealed.len() && #[trigger] is_change_of(sealed[i], c)
                        && #[trigger] affected(entries, c).contains(leaf) implies has_key(
                    plan.paths,
                    leaf,
                ) by {
                    assert(sealed.drop_last()[i] == sealed[i]);
                }
                assert forall|key: MemberPath| #[trigger] has_key(
                    plan.paths,
                    key,
                ) implies exists|i: int, c: MemberPath|
                    0 <= i < sealed.len() && #[trigger] is_change_of(sealed[i], c) && affected(
                        entries,
                        c,
                    ).contains(key) by {
                    let (i, c) = choose|i: int, c: MemberPath|
                        0 <= i < sealed.drop_last().len() && #[trigger] is_change_of(
                            sealed.drop_last()[i],
                            c,
                        ) && affected(entries, c).contains(key);
                    assert(sealed.drop_last()[i] == sealed[i]);
                    assert(is_change_of(sealed[i], c));
                }
            },
        }
    }
}

/// Whether a sealed block goes to the callsite and changed the path.
pub open spec fn is_change_of(sealed: SealedView, path: MemberPath) -> bool {
    sealed matches SealedView::GotoCallsite { builder, .. } && builder.changed.contains(path)
}

// How many variables there are.

/// Whether a plan makes one variable for each path and one for the value, and no other, and those of
/// the paths are numbered in their order.
pub open spec fn plan_counted(plan: Plan, base: nat) -> bool {
    &&& plan.variables.len() == base + plan.paths.len() + (if plan.expr is Some {
        1nat
    } else {
        0
    })
    &&& forall|i: int, j: int|
        0 <= i < j < plan.paths.len() ==> (#[trigger] plan.paths[i]).1.0 < (
        #[trigger] plan.paths[j]).1.0
    &&& forall|i: int|
        0 <= i < plan.paths.len() ==> (#[trigger] plan.paths[i]).1.0 < plan.variables.len()
}

proof fn lemma_plan_paths_counted(
    db: StructTable,
    defs: Map<u64, Type>,
    plan: Plan,
    paths: Seq<MemberPath>,
    location: LocationId,
    base: nat,
)
    requires
        plan_counted(plan, base),
        plan_paths(db, defs, plan, paths, location).variables.len() <= usize::MAX,
    ensures
        plan_counted(plan_paths(db, defs, plan, paths, location), base),
    decreases paths.len(),
{
    if paths.len() > 0 {
        let p = plan_paths(db, defs, plan, paths.drop_last(), location);
        assert(p.variables.len() <= plan_paths(
            db,
            defs,
            plan,
            paths,
            location,
        ).variables.len());
        lemma_plan_paths_counted(db, defs, plan, paths.drop_last(), location, base);
    }
}

proof fn lemma_plan_changes_counted(
    db: StructTable,
    defs: Map<u64, Type>,
    entries: Seq<(MemberPath, Value)>,
    plan: Plan,
    changes: Seq<MemberPath>,
    location: LocationId,
    base: nat,
)
    requires
        plan_counted(plan, base),
        plan_changes(db, defs, entries, plan, changes, location).variables.len() <= usize::MAX,
    ensures
        plan_counted(plan_changes(db, defs, entries, plan, changes, location), base),
    decreases changes.len(),
{
    if changes.len() > 0 {
        let before = plan_changes(db, defs, entries, plan, changes.drop_last(), location);
        let paths = affected(entries, changes.last());
        lemma_plan_paths_grow(db, defs, before, paths, location);
        lemma_plan_changes_counted(
            db,
            defs,
            entries,
            plan,
            changes.drop_last(),
            location,
            base,
        );
        lemma_plan_paths_counted(db, defs, before, paths, location, base);
    }
}

/// A merge makes one variable for each path that it plans for and one for the values that the blocks
/// return, if any does, and no other. Those of the paths are numbered in the order of the paths.
pub proof fn law_plan_counts(
    db: StructTable,
    defs: Map<u64, Type>,
    entries: Seq<(MemberPath, Value)>,
    variables: Seq<Variable>,
    sealed: Seq<SealedView>,
    location: LocationId,
)
    requires
        plan_blocks(db, defs, entries, variables, sealed, location).variables.len() <= usize::MAX,
    ensures
        plan_counted(
            plan_blocks(db, defs, entries, variables, sealed, location),
            variables.len(),
        ),
    decreases sealed.len(),
{
    if sealed.len() > 0 {
        let rest = sealed.drop_last();
        let before = plan_blocks(db, defs, entries, variables, rest, location);
        if let SealedView::GotoCallsite { builder, expr } = sealed.last() {
            let with_expr = plan_expr(before, expr);
            lemma_plan_changes_grow(db, defs, entries, with_expr, builder.changed, location);
            law_plan_counts(db, defs, entries, variables, rest, location);
            lemma_plan_changes_counted(
                db,
                defs,
                entries,
                with_expr,
                builder.changed,
                location,
                variables.len(),
            );
        } else {
            law_plan_counts(db, defs, entries, variables, rest, location);
        }
    }
}

// The order of the variables.

proof fn lemma_plan_paths_extend(
    db: StructTable,
    defs: Map<u64, Type>,
    plan: Plan,
    paths: Seq<MemberPath>,
    location: LocationId,
)
    ensures
        plan_extends(plan, plan_paths(db, defs, plan, paths, location)),
    decreases paths.len(),
{
    lemma_plan_extends_refl(plan);
    if paths.len() > 0 {
        let p = plan_paths(db, defs, plan, paths.drop_last(), location);
        let after = plan_paths(db, defs, plan, paths, location);
        lemma_plan_paths_extend(db, defs, plan, paths.drop_last(), location);
        assert(p.variables =~= after.variables.subrange(0, p.variables.len() as int));
        assert(p.paths =~= after.paths.subrange(0, p.paths.len() as int));
        lemma_plan_extends_trans(plan, p, after);
    }
}

/// What is planned for the first of some paths is planned first.
pub proof fn law_paths_in_order(
    db: StructTable,
    defs: Map<u64, Type>,
    plan: Plan,
    paths: Seq<MemberPath>,
    location: LocationId,
    n: int,
)
    requires
        0 <= n <= paths.len(),
    ensures
        plan_extends(
            plan_paths(db, defs, plan, paths.take(n), location),
            plan_paths(db, defs, plan, paths, location),
        ),
    decreases paths.len(),
{
    let after = plan_paths(db, defs, plan, paths, location);
    if n < paths.len() {
        let rest = paths.drop_last();
        let first = plan_paths(db, defs, plan, paths.take(n), location);
        let p = plan_paths(db, defs, plan, rest, location);
        law_paths_in_order(db, defs, plan, rest, location, n);
        assert(rest.take(n) =~= paths.take(n));
        assert(p.variables =~= after.variables.subrange(0, p.variables.len() as int));
        assert(p.paths =~= after.paths.subrange(0, p.paths.len() as int));
        lemma_plan_extends_trans(first, p, after);
    } else {
        assert(paths.take(n) =~= paths);
        lemma_plan_extends_refl(after);
    }
}

/// The variable for the values is made at the first block that returns one, before those for what
/// that block changed.
pub proof fn law_value_comes_first(
    db: StructTable,
    defs: Map<u64, Type>,
    entries: Seq<(MemberPath, Value)>,
    variables: Seq<Variable>,
    sealed: Seq<SealedView>,
    location: LocationId,
)
    requires
        sealed.len() > 0,
        sealed.last() matches SealedView::GotoCallsite { expr, .. } && expr is Some,
        plan_blocks(db, defs, entries, variables, sealed.drop_last(), location).expr is None,
        plan_blocks(db, defs, entries, variables, sealed, location).variables.len() <= usize::MAX,
    ensures
        plan_blocks(db, defs, entries, variables, sealed, location).expr matches Some(var)
            && var.0 == plan_blocks(
            db,
            defs,
            entries,
            variables,
            sealed.drop_last(),
            location,
        ).variables.len(),
{
    let before = plan_blocks(db, defs, entries, variables, sealed.drop_last(), location);
    let with_expr = plan_expr(before, sealed.last()->expr);
    let changes = sealed.last()->builder.changed;
    law_changes_in_order(db, defs, entries, with_expr, changes, location, 0);
    assert(changes.take(0).len() == 0);
}

/// What is planned for the first changes of a block is planned first.
pub proof fn law_changes_in_order(
    db: StructTable,
    defs: Map<u64, Type>,
    entries: Seq<(MemberPath, Value)>,
    plan: Plan,
    changes: Seq<MemberPath>,
    location: LocationId,
    n: int,
)
    requires
        0 <= n <= changes.len(),
    ensures
        plan_extends(
            plan_changes(db, defs, entries, plan, changes.take(n), location),
            plan_changes(db, defs, entries, plan, changes, location),
        ),
    decreases changes.len(),
{
    let after = plan_changes(db, defs, entries, plan, changes, location);
    if n < changes.len() {
        let rest = changes.drop_last();
        let first = plan_changes(db, defs, entries, plan, changes.take(n), location);
        let p = plan_changes(db, defs, entries, plan, rest, location);
        law_changes_in_order(db, defs, entries, plan, rest, location, n);
        assert(rest.take(n) =~= changes.take(n));
        lemma_plan_paths_extend(db, defs, p, affected(entries, changes.last()), location);
        lemma_plan_extends_trans(first, p, after);
    } else {
        assert(changes.take(n) =~= changes);
        lemma_plan_extends_refl(after);
    }
}

/// What is planned for the first blocks is planned first: their variables come before those of the
/// blocks behind them, and the first value that is returned decides on the variable for the values.
pub proof fn law_blocks_in_order(
    db: StructTable,
    defs: Map<u64, Type>,
    entries: Seq<(MemberPath, Value)>,
    variables: Seq<Variable>,
    sealed: Seq<SealedView>,
    location: LocationId,
    n: int,
)
    requires
        0 <= n <= sealed.len(),
    ensures
        plan_extends(
            plan_blocks(db, defs, entries, variables, sealed.take(n), location),
            plan_blocks(db, defs, entries, variables, sealed, location),
        ),
    decreases sealed.len(),
{
    let after = plan_blocks(db, defs, entries, variables, sealed, location);
    if n < sealed.len() {
        let rest = sealed.drop_last();
        let first = plan_blocks(db, defs, entries, variables, sealed.take(n), location);
        let p = plan_blocks(db, defs, entries, variables, rest, location);
        law_blocks_in_order(db, defs, entries, variables, rest, location, n);
        assert(rest.take(n) =~= sealed.take(n));
        lemma_plan_extends_refl(p);
        if let SealedView::GotoCallsite { builder, expr } = sealed.last() {
            let with_expr = plan_expr(p, expr);
            assert(p.variables =~= with_expr.variables.subrange(0, p.variables.len() as int));
            assert(p.paths =~= with_expr.paths.subrange(0, p.paths.len() as int));
            law_changes_in_order(db, defs, entries, with_expr, builder.changed, location, 0);
            assert(builder.changed.take(0).len() == 0);
            lemma_plan_extends_trans(p, with_expr, after);
        }
        lemma_plan_extends_trans(first, p, after);
    } else {
        assert(sealed.take(n) =~= sealed);
        lemma_plan_extends_refl(after);
    }
}

} // verus!
