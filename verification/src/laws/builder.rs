//! Laws of the block builder.
use vstd::prelude::*;

use crate::context::{location_of, member_position, LoweredExpr, StructTable};
use crate::generators::{constructed, destructured, fresh, new_variables, snapshotted, Emitted};
use crate::ids::{BlockId, LocationId, VarId, VariableId};
use crate::laws::emission::{
    extends, law_reads_and_writes_extend, law_statements_extend, lemma_extends_refl,
    lemma_extends_trans,
};
use crate::laws::mapping::{
    apart, is_prefix, law_entries_stay, law_read_after_introduction, law_read_after_write,
    law_read_twice, law_readable_iff_writable, law_write_apart, lemma_broken_available,
    lemma_prefix_trans,
};
use crate::laws::meaning::{
    all_hold, contents_at, distinct_members, entries_fit, law_read_contents, law_write_contents,
    lemma_member_position_is, member_index, path_fits, Shape, Valuation,
};
use crate::member_path::{ExprVarMemberPath, MemberPath};
use crate::objects::VarUsage;
use crate::ordered::{
    has_key, lemma_inserted, lemma_swap_removed, set_inserted, swap_removed, unique_keys, value_of,
};
use crate::refs::{broken, lookup, Broken, Value};
use crate::state::{
    capture, captured_exprs, child_builder, introduced, lower_expr, lower_exprs, read_ref,
    read_snap, root_builder, sibling_builder, snapped, snapshot_path, usage_types,
    wrapped_member_types, write_ref, BuilderView, Outcome, State,
};
use crate::types::{snapshot_depth, type_list, wrapped, Type};

verus! {

// Reads and writes.

/// `get_ref` gives back what `update_ref` wrote: where a path can be read, it gives a variable that
/// was written to it, emits nothing and changes nothing.
pub proof fn law_get_after_update(
    db: StructTable,
    before: State,
    path: MemberPath,
    var: VariableId,
    location: LocationId,
    read_location: LocationId,
)
    requires
        write_ref(db, before, path, var, location).ok,
        read_ref(db, before, path, location).value is Some,
    ensures
        ({
            let after = write_ref(db, before, path, var, location).state;
            read_ref(db, after, path, read_location) == (Outcome {
                state: after,
                value: Some(VarUsage { var_id: var, location: read_location }),
                ok: true,
            })
        }),
{
    let entries = before.builder.semantics;
    law_readable_iff_writable(db, entries, before.emitted(), path, var, location);
    law_read_after_write(db, entries, before.emitted(), path, var, location, read_location);
}

/// A second `get_ref` gives the variable that the first gave, emits nothing and changes nothing.
pub proof fn law_get_twice(
    db: StructTable,
    before: State,
    path: MemberPath,
    location: LocationId,
)
    requires
        read_ref(db, before, path, location).ok,
        read_ref(db, before, path, location).value is Some,
    ensures
        ({
            let r = read_ref(db, before, path, location);
            read_ref(db, r.state, path, location) == r
        }),
{
    law_read_twice(db, before.builder.semantics, before.emitted(), path, location, location);
}

/// `get_ref` gives the variable that `put_semantic` bound a semantic variable to, and emits
/// nothing.
pub proof fn law_get_after_put(
    db: StructTable,
    before: State,
    var_id: VarId,
    var: VariableId,
    location: LocationId,
)
    ensures
        ({
            let after = State {
                builder: introduced(before.builder, MemberPath::Var(var_id), var),
                ..before
            };
            read_ref(db, after, MemberPath::Var(var_id), location) == (Outcome {
                state: after,
                value: Some(VarUsage { var_id: var, location }),
                ok: true,
            })
        }),
{
    law_read_after_introduction(
        db,
        before.builder.semantics,
        before.emitted(),
        MemberPath::Var(var_id),
        var,
        location,
    );
}

/// An update of a path does not change which variable a path apart from it is in.
pub proof fn law_update_apart(
    db: StructTable,
    before: State,
    path: MemberPath,
    var: VariableId,
    location: LocationId,
    q: MemberPath,
    read_location: LocationId,
)
    requires
        write_ref(db, before, path, var, location).ok,
        apart(path, q),
        lookup(before.builder.semantics, q) matches Some(Value::Var(_)),
    ensures
        ({
            let after = write_ref(db, before, path, var, location).state;
            &&& read_ref(db, after, q, read_location).value == read_ref(
                db,
                before,
                q,
                read_location,
            ).value
            &&& read_ref(db, after, q, read_location).state == after
        }),
{
    let after = write_ref(db, before, path, var, location).state;
    law_write_apart(db, before.builder.semantics, before.emitted(), path, var, location, q);
    lemma_broken_available(db, before.builder.semantics, before.emitted(), q, read_location);
    lemma_broken_available(db, after.builder.semantics, after.emitted(), q, read_location);
}

/// A `get_ref` gives a variable with the contents of the path, and changes the contents of no path.
pub proof fn law_get_contents(
    db: StructTable,
    shape: Shape,
    before: State,
    path: MemberPath,
    location: LocationId,
    env: Valuation,
    q: MemberPath,
)
    requires
        distinct_members(db),
        entries_fit(db, shape, before.builder.semantics),
        path_fits(db, shape, path),
        read_ref(db, before, path, location).ok,
        all_hold(read_ref(db, before, path, location).state.builder.statements, env),
    ensures
        ({
            let r = read_ref(db, before, path, location);
            let semantics = before.builder.semantics;
            &&& r.value matches Some(usage) ==> env(usage.var_id) == contents_at(
                db,
                semantics,
                env,
                path,
            )
            &&& contents_at(db, r.state.builder.semantics, env, q) == contents_at(
                db,
                semantics,
                env,
                q,
            )
            &&& entries_fit(db, shape, r.state.builder.semantics)
            &&& all_hold(before.builder.statements, env)
        }),
{
    law_read_contents(
        db,
        shape,
        before.builder.semantics,
        before.emitted(),
        path,
        location,
        env,
        q,
    );
}

/// An `update_ref` gives the path the contents of the variable, and changes the contents of no path
/// apart from it.
pub proof fn law_update_contents(
    db: StructTable,
    shape: Shape,
    before: State,
    path: MemberPath,
    var: VariableId,
    location: LocationId,
    env: Valuation,
    q: MemberPath,
)
    requires
        distinct_members(db),
        entries_fit(db, shape, before.builder.semantics),
        path_fits(db, shape, path),
        path_fits(db, shape, q),
        write_ref(db, before, path, var, location).ok,
        read_ref(db, before, path, location).value is Some,
        all_hold(write_ref(db, before, path, var, location).state.builder.statements, env),
    ensures
        ({
            let after = write_ref(db, before, path, var, location).state.builder.semantics;
            let semantics = before.builder.semantics;
            &&& contents_at(db, after, env, path) == env(var)
            &&& apart(path, q) ==> contents_at(db, after, env, q) == contents_at(
                db,
                semantics,
                env,
                q,
            )
            &&& entries_fit(db, shape, after)
        }),
{
    let entries = before.builder.semantics;
    law_readable_iff_writable(db, entries, before.emitted(), path, var, location);
    law_write_contents(db, shape, entries, before.emitted(), path, var, location, env, q);
}

// Snapshots.

/// `get_snap_ref` gives back what `update_snap_ref` recorded, and emits nothing.
pub proof fn law_get_snap_after_update_snap(
    db: StructTable,
    before: State,
    path: ExprVarMemberPath,
    var: VariableId,
)
    ensures
        ({
            let after = State { builder: snapped(before.builder, path.path(), var), ..before };
            read_snap(db, after, path) == (Outcome {
                state: after,
                value: Some(
                    VarUsage { var_id: var, location: location_of(path.spec_stable_ptr()) },
                ),
                ok: true,
            })
        }),
{
    lemma_inserted(before.builder.snapped, path.path(), var);
}

/// An update of a path drops the snapshot that was taken of it, and no other.
pub proof fn law_update_drops_snapshot(
    db: StructTable,
    before: State,
    path: MemberPath,
    var: VariableId,
    location: LocationId,
    q: MemberPath,
)
    requires
        unique_keys(before.builder.snapped),
    ensures
        ({
            let after = write_ref(db, before, path, var, location).state.builder.snapped;
            &&& !has_key(after, path)
            &&& q != path ==> value_of(after, q) == value_of(before.builder.snapped, q)
        }),
{
    lemma_swap_removed(before.builder.snapped, path);
    if q != path {
        assert(value_of(swap_removed(before.builder.snapped, path), q) == value_of(
            before.builder.snapped,
            q,
        ));
    }
}

/// A snapshot that is read out of that of the parent has as many snapshots around it as that one.
pub proof fn law_snap_of_member_type(
    db: StructTable,
    before: State,
    parent: ExprVarMemberPath,
    path: ExprVarMemberPath,
)
    requires
        path matches ExprVarMemberPath::Member { parent: p, .. } && *p == parent,
        !has_key(before.builder.snapped, path.path()),
        read_snap(db, before, path).ok,
        read_snap(db, before, path).value is Some,
        read_snap(db, before, path).state.variables.len() <= usize::MAX,
    ensures
        ({
            let above = read_snap(db, before, parent);
            let r = read_snap(db, before, path);
            let i = member_index(db, path.path()).unwrap();
            let members = db.members(path->concrete_struct_id).unwrap();
            &&& above.value is Some
            &&& member_index(db, path.path()) is Some
            &&& r.state.variables[r.value.unwrap().var_id.0 as int].ty == wrapped(
                members[i].ty,
                snapshot_depth(above.state.variables[above.value.unwrap().var_id.0 as int].ty),
            )
        }),
{
    let above = read_snap(db, before, parent);
    let r = read_snap(db, before, path);
    if let ExprVarMemberPath::Member { member_id, concrete_struct_id, .. } = path {
        let members = db.members(concrete_struct_id).unwrap();
        lemma_member_position_is(members, member_id);
        let i = member_position(members, member_id).unwrap();
        let n = snapshot_depth(above.state.variables[above.value.unwrap().var_id.0 as int].ty);
        let outputs = new_variables(
            wrapped_member_types(members, n),
            location_of(path.spec_stable_ptr()),
        );
        assert(r.state.variables == above.state.variables + outputs);
        assert(outputs[i].ty == wrapped(members[i].ty, n));
    }
}

// Scopes.

/// A subscope starts where its parent is: it reads the same variables and the same snapshots, and
/// has neither changes nor statements.
pub proof fn law_child_starts_at_parent(builder: BuilderView, block_id: BlockId)
    ensures
        ({
            let child = child_builder(builder, block_id);
            &&& child.semantics == builder.semantics
            &&& child.snapped == builder.snapped
            &&& child.changed.len() == 0
            &&& child.statements.len() == 0
            &&& child.block_id == block_id
        }),
{
}

/// A sibling goes on where its builder ends: unlike a subscope, it also keeps the changes.
pub proof fn law_sibling_goes_on(builder: BuilderView, block_id: BlockId)
    ensures
        ({
            let sibling = sibling_builder(builder, block_id);
            &&& sibling.semantics == builder.semantics
            &&& sibling.snapped == builder.snapped
            &&& sibling.changed == builder.changed
            &&& sibling.statements.len() == 0
            &&& sibling.block_id == block_id
        }),
{
}

// What every step keeps.

/// No semantic variable and no snapshot has two entries, and no change is recorded twice.
pub open spec fn builder_valid(builder: BuilderView) -> bool {
    &&& unique_keys(builder.semantics)
    &&& unique_keys(builder.snapped)
    &&& builder.changed.no_duplicates()
}

/// Whether a state comes from another by steps of a builder: it is at the same block, nothing that
/// was emitted or recorded as changed is taken back, no entry goes, and validity is kept.
pub open spec fn goes_on(before: State, after: State) -> bool {
    &&& after.builder.block_id == before.builder.block_id
    &&& extends(before.emitted(), after.emitted())
    &&& before.builder.changed.is_prefix_of(after.builder.changed)
    &&& forall|key: MemberPath|
        has_key(before.builder.semantics, key) ==> #[trigger] has_key(after.builder.semantics, key)
    &&& builder_valid(before.builder) ==> builder_valid(after.builder)
}

/// A builder for a root block is valid, and so are subscopes and siblings of a valid one.
pub proof fn law_new_builders_valid(builder: BuilderView, block_id: BlockId)
    ensures
        builder_valid(root_builder(block_id)),
        builder_valid(builder) ==> builder_valid(child_builder(builder, block_id)),
        builder_valid(builder) ==> builder_valid(sibling_builder(builder, block_id)),
{
}

pub(crate) proof fn lemma_goes_on_refl(state: State)
    ensures
        goes_on(state, state),
{
    lemma_extends_refl(state.emitted());
    assert(state.builder.changed =~= state.builder.changed.subrange(
        0,
        state.builder.changed.len() as int,
    ));
}

pub(crate) proof fn lemma_goes_on_trans(a: State, b: State, c: State)
    requires
        goes_on(a, b),
        goes_on(b, c),
    ensures
        goes_on(a, c),
{
    lemma_extends_trans(a.emitted(), b.emitted(), c.emitted());
    assert(a.builder.changed =~= c.builder.changed.subrange(0, a.builder.changed.len() as int));
    assert forall|key: MemberPath| has_key(a.builder.semantics, key) implies #[trigger] has_key(
        c.builder.semantics,
        key,
    ) by {
        assert(has_key(b.builder.semantics, key));
    }
}

/// More that is emitted keeps everything else.
pub(crate) proof fn lemma_emitting_goes_on(state: State, emitted: Emitted)
    requires
        extends(state.emitted(), emitted),
    ensures
        goes_on(state, state.emitting(emitted)),
{
    assert(state.builder.changed =~= state.builder.changed.subrange(
        0,
        state.builder.changed.len() as int,
    ));
}

/// A change is recorded once.
pub(crate) proof fn lemma_set_inserted<K>(elements: Seq<K>, key: K)
    ensures
        elements.is_prefix_of(set_inserted(elements, key)),
        set_inserted(elements, key).contains(key),
        elements.no_duplicates() ==> set_inserted(elements, key).no_duplicates(),
{
    let after = set_inserted(elements, key);
    assert(elements =~= after.subrange(0, elements.len() as int));
    if !elements.contains(key) {
        assert(after[elements.len() as int] == key);
        if elements.no_duplicates() {
            assert forall|i: int, j: int| 0 <= i < j < after.len() implies after[i]
                != after[j] by {
                if j == elements.len() {
                    assert(elements[i] != key);
                }
            }
        }
    }
}

/// `put_semantic`, `update_ref`, `get_ref` and `update_snap_ref` go on from the state that they
/// start at. What is put or updated is recorded as changed.
pub proof fn law_steps_go_on(
    db: StructTable,
    before: State,
    path: MemberPath,
    var: VariableId,
    location: LocationId,
)
    ensures
        goes_on(before, State { builder: introduced(before.builder, path, var), ..before }),
        goes_on(before, State { builder: snapped(before.builder, path, var), ..before }),
        goes_on(before, read_ref(db, before, path, location).state),
        goes_on(before, write_ref(db, before, path, var, location).state),
        introduced(before.builder, path, var).changed.contains(path),
        write_ref(db, before, path, var, location).state.builder.changed.contains(path),
        read_ref(db, before, path, location).state.builder.changed == before.builder.changed,
        read_ref(db, before, path, location).state.builder.snapped == before.builder.snapped,
{
    let entries = before.builder.semantics;
    lemma_goes_on_refl(before);
    lemma_set_inserted(before.builder.changed, path);
    lemma_inserted(entries, path, Value::Var(var));
    lemma_inserted(before.builder.snapped, path, var);
    law_reads_and_writes_extend(db, entries, before.emitted(), path, var, location);
    if unique_keys(before.builder.snapped) {
        lemma_swap_removed(before.builder.snapped, path);
    }
    let put = introduced(before.builder, path, var);
    assert forall|key: MemberPath| has_key(entries, key) implies #[trigger] has_key(
        put.semantics,
        key,
    ) by {
        if key != path {
            assert(value_of(put.semantics, key) == value_of(entries, key));
        }
    }
    let r = read_ref(db, before, path, location).state;
    let w = write_ref(db, before, path, var, location).state;
    assert forall|key: MemberPath|
        has_key(r.builder.semantics, key) == has_key(entries, key) && has_key(
            w.builder.semantics,
            key,
        ) == has_key(entries, key) by {
        law_entries_stay(db, entries, before.emitted(), path, var, location, key);
    }
    law_entries_stay(db, entries, before.emitted(), path, var, location, path);
}

/// `get_snap_ref` goes on from the state that it starts at. It changes nothing but what is emitted.
pub proof fn law_get_snap_goes_on(db: StructTable, before: State, path: ExprVarMemberPath)
    ensures
        goes_on(before, read_snap(db, before, path).state),
        read_snap(db, before, path).state.builder.semantics == before.builder.semantics,
        read_snap(db, before, path).state.builder.snapped == before.builder.snapped,
        read_snap(db, before, path).state.builder.changed == before.builder.changed,
    decreases path,
{
    lemma_goes_on_refl(before);
    if value_of(before.builder.snapped, path.path()) is None {
        if let ExprVarMemberPath::Member { parent, member_id, concrete_struct_id, .. } = path {
            law_get_snap_goes_on(db, before, *parent);
            let p = read_snap(db, before, *parent);
            let r = read_snap(db, before, path);
            if r.state != p.state {
                let members = db.members(concrete_struct_id).unwrap();
                let input = p.value.unwrap();
                let location = location_of(path.spec_stable_ptr());
                let n = snapshot_depth(p.state.variables[input.var_id.0 as int].ty);
                let outputs = new_variables(wrapped_member_types(members, n), location);
                law_statements_extend(
                    p.state.emitted(),
                    input,
                    outputs,
                    Seq::empty(),
                    Type::unit(),
                    location,
                );
                lemma_emitting_goes_on(
                    p.state,
                    destructured(p.state.emitted(), input, outputs),
                );
                lemma_goes_on_trans(before, p.state, r.state);
            }
        }
    }
}

/// Putting the value of an expression into a variable goes on from the state that it starts at.
pub proof fn law_lower_goes_on(db: StructTable, before: State, expr: LoweredExpr)
    ensures
        goes_on(before, lower_expr(db, before, expr).state),
    decreases expr,
{
    lemma_goes_on_refl(before);
    match expr {
        LoweredExpr::AtVariable(_) => {},
        LoweredExpr::Tuple { exprs, location } => {
            law_lower_all_goes_on(db, before, exprs@);
            let l = lower_exprs(db, before, exprs@);
            let ty = Type::Tuple(type_list(usage_types(l.state.variables, l.value)));
            lemma_construct_goes_on(l.state, l.value, ty, location);
            lemma_goes_on_trans(before, l.state, lower_expr(db, before, expr).state);
        },
        LoweredExpr::MemberPath(path, _) => {
            law_steps_go_on(
                db,
                before,
                path.path(),
                VariableId(0),
                location_of(path.spec_stable_ptr()),
            );
        },
        LoweredExpr::Snapshot { expr: inner, location } => match *inner {
            LoweredExpr::MemberPath(path, _) => {
                lemma_snapshot_path_goes_on(db, before, path, location);
            },
            _ => {
                law_lower_goes_on(db, before, *inner);
                let l = lower_expr(db, before, *inner);
                lemma_snapshot_goes_on(l.state, l.value, location);
                lemma_goes_on_trans(before, l.state, lower_expr(db, before, expr).state);
            },
        },
    }
}

pub(crate) proof fn lemma_construct_goes_on(
    state: State,
    inputs: Seq<VarUsage>,
    ty: Type,
    location: LocationId,
)
    ensures
        goes_on(state, state.emitting(constructed(state.emitted(), inputs, ty, location))),
{
    law_statements_extend(
        state.emitted(),
        VarUsage { var_id: VariableId(0), location },
        Seq::empty(),
        inputs,
        ty,
        location,
    );
    lemma_emitting_goes_on(state, constructed(state.emitted(), inputs, ty, location));
}

proof fn lemma_snapshot_goes_on(state: State, input: VarUsage, location: LocationId)
    ensures
        goes_on(state, state.emitting(snapshotted(state.emitted(), input, location))),
{
    law_statements_extend(
        state.emitted(),
        input,
        Seq::empty(),
        Seq::empty(),
        Type::unit(),
        location,
    );
    lemma_emitting_goes_on(state, snapshotted(state.emitted(), input, location));
}

proof fn lemma_snapshot_path_goes_on(
    db: StructTable,
    before: State,
    path: ExprVarMemberPath,
    location: LocationId,
)
    ensures
        goes_on(before, snapshot_path(db, before, path, location).state),
{
    let path_location = location_of(path.spec_stable_ptr());
    let known = read_snap(db, before, path);
    law_get_snap_goes_on(db, before, path);
    if known.value is None {
        let r = read_ref(db, known.state, path.path(), path_location);
        let input = r.value.unwrap();
        let e = r.state.emitted();
        let s = r.state.emitting(snapshotted(e, input, location));
        let w = write_ref(db, s, path.path(), fresh(e, 0), path_location);
        let last = State {
            builder: snapped(w.state.builder, path.path(), fresh(e, 1)),
            ..w.state
        };
        law_steps_go_on(db, known.state, path.path(), VariableId(0), path_location);
        lemma_snapshot_goes_on(r.state, input, location);
        law_steps_go_on(db, s, path.path(), fresh(e, 0), path_location);
        law_steps_go_on(db, w.state, path.path(), fresh(e, 1), path_location);
        lemma_goes_on_trans(before, known.state, r.state);
        lemma_goes_on_trans(before, r.state, s);
        lemma_goes_on_trans(before, s, w.state);
        lemma_goes_on_trans(before, w.state, last);
    }
}

/// Putting the values of expressions into variables goes on from the state that it starts at.
pub proof fn law_lower_all_goes_on(db: StructTable, before: State, exprs: Seq<LoweredExpr>)
    ensures
        goes_on(before, lower_exprs(db, before, exprs).state),
    decreases exprs,
{
    lemma_goes_on_refl(before);
    if exprs.len() > 0 {
        let first = lower_exprs(db, before, exprs.drop_last());
        law_lower_all_goes_on(db, before, exprs.drop_last());
        law_lower_goes_on(db, first.state, exprs[exprs.len() - 1]);
        lemma_goes_on_trans(before, first.state, lower_exprs(db, before, exprs).state);
    }
}

/// `capture` goes on from the state that it starts at.
pub proof fn law_capture_goes_on(
    db: StructTable,
    before: State,
    usage: Seq<(MemberPath, ExprVarMemberPath)>,
    changes: Seq<(MemberPath, ExprVarMemberPath)>,
    snap_usage: Seq<(MemberPath, ExprVarMemberPath)>,
    ty: Type,
    location: LocationId,
)
    ensures
        goes_on(
            before,
            capture(db, before, usage, changes, snap_usage, ty, location).state,
        ),
{
    let exprs = captured_exprs(usage, snap_usage, location);
    let l = lower_exprs(db, before, exprs);
    law_lower_all_goes_on(db, before, exprs);
    lemma_construct_goes_on(l.state, l.value, ty, location);
    lemma_goes_on_trans(
        before,
        l.state,
        capture(db, before, usage, changes, snap_usage, ty, location).state,
    );
}

// What each step does to each part of a builder.

/// A builder for a root block is empty, at the given block.
pub proof fn law_root_starts_empty(block_id: BlockId)
    ensures
        ({
            let root = root_builder(block_id);
            &&& root.semantics.len() == 0
            &&& root.snapped.len() == 0
            &&& root.changed.len() == 0
            &&& root.statements.len() == 0
            &&& root.block_id == block_id
        }),
{
}

/// A change is recorded, and no other is.
pub(crate) proof fn lemma_only_inserted<K>(elements: Seq<K>, key: K, other: K)
    ensures
        set_inserted(elements, key).contains(other) == (elements.contains(other) || other == key),
{
    lemma_set_inserted(elements, key);
    let after = set_inserted(elements, key);
    if elements.contains(other) {
        let i = choose|i: int| 0 <= i < elements.len() && elements[i] == other;
        assert(after[i] == other);
    }
    if after.contains(other) && other != key {
        let i = choose|i: int| 0 <= i < after.len() && after[i] == other;
        assert(elements[i] == other);
    }
}

/// A `put_semantic` binds its variable to the lowered variable and records it as changed. All other
/// variables, all snapshots, the other records and the statements stay as they are.
pub proof fn law_put_changes_one(
    builder: BuilderView,
    path: MemberPath,
    var: VariableId,
    other: MemberPath,
)
    ensures
        ({
            let after = introduced(builder, path, var);
            &&& value_of(after.semantics, path) == Some(Value::Var(var))
            &&& other != path ==> value_of(after.semantics, other) == value_of(
                builder.semantics,
                other,
            )
            &&& after.changed.contains(other) == (builder.changed.contains(other) || other == path)
            &&& after.snapped == builder.snapped
            &&& after.statements == builder.statements
            &&& after.block_id == builder.block_id
        }),
{
    lemma_inserted(builder.semantics, path, Value::Var(var));
    lemma_only_inserted(builder.changed, path, other);
    if other != path {
        assert(value_of(introduced(builder, path, var).semantics, other) == value_of(
            builder.semantics,
            other,
        ));
    }
}

/// An `update_snap_ref` records the snapshot of its path, in place of one that it had. All the rest
/// stays as it is.
pub proof fn law_update_snap_changes_one(
    builder: BuilderView,
    path: MemberPath,
    var: VariableId,
    other: MemberPath,
)
    ensures
        ({
            let after = snapped(builder, path, var);
            &&& value_of(after.snapped, path) == Some(var)
            &&& other != path ==> value_of(after.snapped, other) == value_of(
                builder.snapped,
                other,
            )
            &&& after.semantics == builder.semantics
            &&& after.changed == builder.changed
            &&& after.statements == builder.statements
            &&& after.block_id == builder.block_id
        }),
{
    lemma_inserted(builder.snapped, path, var);
    if other != path {
        assert(value_of(snapped(builder, path, var).snapped, other) == value_of(
            builder.snapped,
            other,
        ));
    }
}

/// An `update_ref` records its path as changed, and no other. A path whose variable the mapping does
/// not have stays unknown: nothing is bound and nothing is emitted.
pub proof fn law_update_changes_one(
    db: StructTable,
    before: State,
    path: MemberPath,
    var: VariableId,
    location: LocationId,
    other: MemberPath,
)
    ensures
        ({
            let after = write_ref(db, before, path, var, location).state;
            &&& after.builder.changed.contains(other) == (before.builder.changed.contains(other)
                || other == path)
            &&& after.builder.block_id == before.builder.block_id
            &&& (forall|p: MemberPath|
                is_prefix(p, path) ==> !#[trigger] has_key(before.builder.semantics, p)) ==> {
                &&& after.builder.semantics == before.builder.semantics
                &&& after.builder.statements == before.builder.statements
                &&& after.variables == before.variables
                &&& write_ref(db, before, path, var, location).ok
            }
        }),
{
    lemma_only_inserted(before.builder.changed, path, other);
    if forall|p: MemberPath|
        is_prefix(p, path) ==> !#[trigger] has_key(before.builder.semantics, p) {
        lemma_broken_unknown(db, before.builder.semantics, before.emitted(), path, location);
    }
}

/// A `get_ref` of a path whose variable the mapping does not have gives nothing, and changes
/// nothing.
pub proof fn law_get_unknown(
    db: StructTable,
    before: State,
    path: MemberPath,
    location: LocationId,
)
    requires
        forall|p: MemberPath|
            is_prefix(p, path) ==> !#[trigger] has_key(before.builder.semantics, p),
    ensures
        read_ref(db, before, path, location) == (Outcome::<Option<VarUsage>> {
            state: before,
            value: None,
            ok: true,
        }),
{
    lemma_broken_unknown(db, before.builder.semantics, before.emitted(), path, location);
}

/// A path whose variable the mapping does not have is not found.
proof fn lemma_broken_unknown(
    db: StructTable,
    entries: Seq<(MemberPath, Value)>,
    emitted: Emitted,
    path: MemberPath,
    location: LocationId,
)
    requires
        forall|p: MemberPath| is_prefix(p, path) ==> !#[trigger] has_key(entries, p),
    ensures
        broken(db, entries, emitted, path, location) == (Broken {
            entries,
            emitted,
            found: false,
            ok: true,
        }),
    decreases path,
{
    assert(is_prefix(path, path));
    assert(!has_key(entries, path));
    if let MemberPath::Member { parent, .. } = path {
        assert forall|p: MemberPath| is_prefix(p, *parent) implies !#[trigger] has_key(
            entries,
            p,
        ) by {
            lemma_prefix_trans(p, *parent, path);
        }
        lemma_broken_unknown(db, entries, emitted, *parent, location);
    }
}

/// A `get_ref` of a path that is in a variable gives that variable, at the location of the read, and
/// emits nothing.
pub proof fn law_get_of_variable(
    db: StructTable,
    before: State,
    path: MemberPath,
    location: LocationId,
    var: VariableId,
)
    requires
        lookup(before.builder.semantics, path) == Some(Value::Var(var)),
    ensures
        read_ref(db, before, path, location) == (Outcome {
            state: before,
            value: Some(VarUsage { var_id: var, location }),
            ok: true,
        }),
{
    lemma_broken_available(db, before.builder.semantics, before.emitted(), path, location);
}

} // verus!
