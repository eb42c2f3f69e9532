//! Laws of the places in the source that statements and variables come from.
use vstd::prelude::*;

use crate::context::{location_of, member_position, LoweredExpr, StructTable};
use crate::generators::{fresh, fresh_ids, new_variables, snapshotted, Emitted};
use crate::ids::{LocationId, VariableId};
use crate::laws::builder::{
    law_get_after_update, law_get_of_variable, law_get_twice, law_update_drops_snapshot,
    lemma_only_inserted,
};
use crate::laws::emission::{
    extends, law_reads_and_writes_extend, law_statements_extend, lemma_assembled_extends,
    lemma_assembled_members_extends, lemma_extends_refl,
};
use crate::laws::mapping::{lemma_broken_found, lemma_lookup_stored};
use crate::laws::meaning::lemma_member_position_is;
use crate::member_path::{ExprVarMemberPath, MemberPath};
use crate::objects::{StatementView, VarUsage, Variable};
use crate::ordered::{has_key, lemma_inserted, unique_keys, value_of};
use crate::recomposer::{member_types, reconstructed, usages_at};
use crate::refs::{assembled, assembled_members, broken, lookup, Members, Value};
use crate::state::{
    lower_expr, lower_exprs, read_ref, read_snap, snapshot_path, wrapped_member_types, write_ref,
    State,
};
use crate::types::{snapshot_depth, Type};

verus! {

/// Whether a statement that a read or a write emits is placed as it should: its usages are at the
/// given location. So is a struct that is put together. The members of one that is taken apart are
/// where the variable of the struct is.
pub open spec fn statement_placed(
    variables: Seq<Variable>,
    statement: StatementView,
    location: LocationId,
) -> bool {
    match statement {
        StatementView::StructConstruct { inputs, output } => {
            &&& forall|k: int| 0 <= k < inputs.len() ==> (#[trigger] inputs[k]).location == location
            &&& output.0 < variables.len()
            &&& variables[output.0 as int].location == location
        },
        StatementView::StructDestructure { input, outputs } => {
            &&& input.location == location
            &&& input.var_id.0 < variables.len()
            &&& forall|k: int|
                0 <= k < outputs.len() ==> (#[trigger] outputs[k]).0 < variables.len()
                    && variables[outputs[k].0 as int].location
                    == variables[input.var_id.0 as int].location
        },
        _ => false,
    }
}

/// Whether all that was emitted since then is placed as it should.
pub open spec fn placed_since(before: Emitted, after: Emitted, location: LocationId) -> bool {
    forall|i: int|
        before.statements.len() <= i < after.statements.len() ==> statement_placed(
            after.variables,
            #[trigger] after.statements[i],
            location,
        )
}

proof fn lemma_placed_of_more(
    variables: Seq<Variable>,
    more: Seq<Variable>,
    statement: StatementView,
    location: LocationId,
)
    requires
        statement_placed(variables, statement, location),
        variables.is_prefix_of(more),
    ensures
        statement_placed(more, statement, location),
{
    assert forall|k: int| 0 <= k < variables.len() implies #[trigger] more[k] == variables[k] by {}
}

proof fn lemma_placed_trans(a: Emitted, b: Emitted, c: Emitted, location: LocationId)
    requires
        placed_since(a, b, location),
        placed_since(b, c, location),
        extends(b, c),
    ensures
        placed_since(a, c, location),
{
    assert forall|i: int|
        a.statements.len() <= i < c.statements.len() implies statement_placed(
        c.variables,
        #[trigger] c.statements[i],
        location,
    ) by {
        if i < b.statements.len() {
            assert(c.statements[i] == b.statements[i]);
            lemma_placed_of_more(b.variables, c.variables, b.statements[i], location);
        }
    }
}

proof fn lemma_broken_placed(
    db: StructTable,
    entries: Seq<(MemberPath, Value)>,
    emitted: Emitted,
    path: MemberPath,
    location: LocationId,
)
    requires
        broken(db, entries, emitted, path, location).emitted.variables.len() <= usize::MAX,
    ensures
        placed_since(emitted, broken(db, entries, emitted, path, location).emitted, location),
    decreases path,
{
    if !has_key(entries, path) {
        if let MemberPath::Member { parent, concrete_struct_id, .. } = path {
            let above = broken(db, entries, emitted, *parent, location);
            let b = broken(db, entries, emitted, path, location);
            lemma_broken_placed_step(db, entries, emitted, path, location);
            lemma_broken_placed(db, entries, emitted, *parent, location);
            lemma_placed_trans(emitted, above.emitted, b.emitted, location);
        }
    }
}

proof fn lemma_broken_placed_step(
    db: StructTable,
    entries: Seq<(MemberPath, Value)>,
    emitted: Emitted,
    path: MemberPath,
    location: LocationId,
)
    requires
        path is Member,
        !has_key(entries, path),
        broken(db, entries, emitted, path, location).emitted.variables.len() <= usize::MAX,
    ensures
        ({
            let above = broken(db, entries, emitted, *path->parent, location);
            let b = broken(db, entries, emitted, path, location);
            &&& placed_since(above.emitted, b.emitted, location)
            &&& extends(above.emitted, b.emitted)
        }),
{
    let parent = *path->parent;
    let id = path->concrete_struct_id;
    let above = broken(db, entries, emitted, parent, location);
    let b = broken(db, entries, emitted, path, location);
    let e = above.emitted;
    lemma_extends_refl(e);
    if above.ok && above.found {
        if let Some(Value::Var(var)) = lookup(above.entries, parent) {
            if db.members(id) is Some && var.0 < e.variables.len() {
                let types = member_types(db.members(id).unwrap());
                let input = VarUsage { var_id: var, location };
                let outputs = new_variables(types, e.variables[var.0 as int].location);
                law_statements_extend(
                    e,
                    input,
                    outputs,
                    Seq::empty(),
                    Type::unit(),
                    location,
                );
                let vars = fresh_ids(e, outputs.len());
                let n = e.statements.len() as int;
                assert(b.emitted.statements[n] == (StatementView::StructDestructure {
                    input,
                    outputs: vars,
                }));
                assert(b.emitted.variables[var.0 as int] == e.variables[var.0 as int]);
                assert forall|k: int| 0 <= k < vars.len() implies (#[trigger] vars[k]).0
                    < b.emitted.variables.len() && b.emitted.variables[vars[k].0 as int].location
                    == e.variables[var.0 as int].location by {
                    assert(vars[k] == fresh(e, k));
                    assert(b.emitted.variables[e.variables.len() + k] == outputs[k]);
                }
                assert forall|i: int|
                    n <= i < b.emitted.statements.len() implies statement_placed(
                    b.emitted.variables,
                    #[trigger] b.emitted.statements[i],
                    location,
                ) by {
                    assert(i == n);
                }
            }
        }
    }
}

proof fn lemma_assembled_placed(value: Value, emitted: Emitted, location: LocationId)
    requires
        assembled(value, emitted, location).0.variables.len() <= usize::MAX,
    ensures
        placed_since(emitted, assembled(value, emitted, location).0, location),
    decreases value,
{
    if let Value::Scattered { concrete_struct_id, members } = value {
        let (e, vars) = assembled_members(*members, emitted, location);
        let after = reconstructed(e, concrete_struct_id, vars, location);
        let inputs = usages_at(vars, location);
        law_statements_extend(
            e,
            VarUsage { var_id: fresh(e, 0), location },
            Seq::empty(),
            inputs,
            Type::Struct(concrete_struct_id),
            location,
        );
        lemma_assembled_members_placed(*members, emitted, location);
        let n = e.statements.len() as int;
        assert(after.statements[n] == (StatementView::StructConstruct {
            inputs,
            output: fresh(e, 0),
        }));
        assert(after.variables[e.variables.len() as int].location == location);
        assert(statement_placed(after.variables, after.statements[n], location));
        assert(placed_since(e, after, location));
        lemma_placed_trans(emitted, e, after, location);
    }
}

proof fn lemma_assembled_members_placed(
    members: Members,
    emitted: Emitted,
    location: LocationId,
)
    requires
        assembled_members(members, emitted, location).0.variables.len() <= usize::MAX,
    ensures
        placed_since(emitted, assembled_members(members, emitted, location).0, location),
    decreases members,
{
    if let Members::Cons { value, rest, .. } = members {
        let (e1, _) = assembled(*value, emitted, location);
        let (e2, _) = assembled_members(*rest, e1, location);
        lemma_assembled_members_extends(*rest, e1, location);
        assert(e1.variables.len() <= e2.variables.len());
        lemma_assembled_placed(*value, emitted, location);
        lemma_assembled_members_placed(*rest, e1, location);
        lemma_placed_trans(emitted, e1, e2, location);
    }
}

/// Reads and writes take structs apart and put them together, at the location of the read or write,
/// and emit nothing else. What they read is used at that location.
pub proof fn law_reads_and_writes_are_placed(
    db: StructTable,
    before: State,
    path: MemberPath,
    var: VariableId,
    location: LocationId,
)
    requires
        read_ref(db, before, path, location).state.variables.len() <= usize::MAX,
        write_ref(db, before, path, var, location).state.variables.len() <= usize::MAX,
    ensures
        ({
            let r = read_ref(db, before, path, location);
            let w = write_ref(db, before, path, var, location);
            &&& placed_since(before.emitted(), r.state.emitted(), location)
            &&& placed_since(before.emitted(), w.state.emitted(), location)
            &&& r.value matches Some(usage) ==> usage.location == location
        }),
{
    let entries = before.builder.semantics;
    let emitted = before.emitted();
    let b = broken(db, entries, emitted, path, location);
    let r = read_ref(db, before, path, location);
    let w = write_ref(db, before, path, var, location);
    lemma_broken_placed(db, entries, emitted, path, location);
    assert(w.state.emitted() == b.emitted);
    if let Some(value) = lookup(b.entries, path) {
        if b.ok && b.found && value is Scattered {
            lemma_assembled_placed(value, b.emitted, location);
            lemma_assembled_extends(value, b.emitted, location);
            lemma_placed_trans(
                emitted,
                b.emitted,
                assembled(value, b.emitted, location).0,
                location,
            );
            assert(r.state.emitted() == assembled(value, b.emitted, location).0);
        } else {
            assert(r.state.emitted() == b.emitted);
        }
    } else {
        assert(r.state.emitted() == b.emitted);
    }
}

/// The members that a `get_snap_ref` takes a snapshot apart into are where the path stands, and the
/// snapshot that it takes apart is used where the parent stands.
pub proof fn law_get_snap_is_placed(db: StructTable, before: State, path: ExprVarMemberPath)
    requires
        path is Member,
        !has_key(before.builder.snapped, path.path()),
        read_snap(db, before, path).ok,
        read_snap(db, before, path).value is Some,
        read_snap(db, before, path).state.variables.len() <= usize::MAX,
    ensures
        ({
            let above = read_snap(db, before, *path->parent);
            let r = read_snap(db, before, path);
            let location = location_of(path.spec_stable_ptr());
            &&& r.value.unwrap().location == location
            &&& above.value is Some
            &&& r.state.builder.statements.len() == above.state.builder.statements.len() + 1
            &&& r.state.builder.statements.last() matches StatementView::StructDestructure {
                input,
                outputs,
            } && {
                &&& input.var_id == above.value.unwrap().var_id
                &&& input.location == location_of(path->parent.spec_stable_ptr())
                &&& outputs.contains(r.value.unwrap().var_id)
                &&& forall|k: int|
                    0 <= k < outputs.len() ==> (#[trigger] outputs[k]).0
                        == above.state.variables.len() + k && outputs[k].0
                        < r.state.variables.len()
                        && r.state.variables[outputs[k].0 as int].location == location
            }
        }),
{
    let above = read_snap(db, before, *path->parent);
    let r = read_snap(db, before, path);
    let location = location_of(path.spec_stable_ptr());
    let declared = db.members(path->concrete_struct_id).unwrap();
    let input = above.value.unwrap();
    let e = above.state.emitted();
    let depth = snapshot_depth(e.variables[input.var_id.0 as int].ty);
    let new = new_variables(wrapped_member_types(declared, depth), location);
    let outputs = fresh_ids(e, new.len());
    let i = member_position(declared, path->member_id).unwrap();
    lemma_member_position_is(declared, path->member_id);
    lemma_snap_usage(db, before, *path->parent);
    assert(r.state.builder.statements == e.statements.push(
        StatementView::StructDestructure { input, outputs },
    ));
    assert(outputs[i] == r.value.unwrap().var_id);
    assert forall|k: int| 0 <= k < outputs.len() implies (#[trigger] outputs[k]).0
        == above.state.variables.len() + k && outputs[k].0 < r.state.variables.len()
        && r.state.variables[outputs[k].0 as int].location == location by {
        assert(outputs[k] == fresh(e, k));
        assert(r.state.variables[e.variables.len() + k] == new[k]);
    }
}

/// A snapshot that is read is used where the path stands.
proof fn lemma_snap_usage(db: StructTable, before: State, path: ExprVarMemberPath)
    ensures
        read_snap(db, before, path).value matches Some(usage) ==> usage.location == location_of(
            path.spec_stable_ptr(),
        ) || !read_snap(db, before, path).ok,
    decreases path,
{
    if value_of(before.builder.snapped, path.path()) is None {
        if let ExprVarMemberPath::Member { parent, .. } = path {
            lemma_snap_usage(db, before, *parent);
        }
    }
}

/// Where an expression stands.
pub open spec fn expr_location(expr: LoweredExpr) -> LocationId {
    match expr {
        LoweredExpr::AtVariable(usage) => usage.location,
        LoweredExpr::Tuple { location, .. } => location,
        LoweredExpr::MemberPath(path, _) => location_of(path.spec_stable_ptr()),
        LoweredExpr::Snapshot { location, .. } => location,
    }
}

/// The value of an expression is used where the expression stands. A tuple is put together there
/// from its parts, in their order, as the last step, in a new variable.
pub proof fn law_lower_is_placed(db: StructTable, before: State, expr: LoweredExpr)
    requires
        lower_expr(db, before, expr).ok,
        lower_expr(db, before, expr).state.variables.len() <= usize::MAX,
    ensures
        ({
            let l = lower_expr(db, before, expr);
            &&& l.value.location == expr_location(expr)
            &&& expr matches LoweredExpr::AtVariable(usage) ==> l.value == usage && l.state
                == before
            &&& expr matches LoweredExpr::Tuple { exprs, location } ==> {
                let parts = lower_exprs(db, before, exprs@);
                &&& l.state.builder.statements.len() == parts.state.builder.statements.len() + 1
                &&& l.state.builder.statements.last() == (StatementView::StructConstruct {
                    inputs: parts.value,
                    output: l.value.var_id,
                })
                &&& l.value.var_id.0 == parts.state.variables.len()
                &&& l.value.var_id.0 < l.state.variables.len()
                &&& l.state.variables[l.value.var_id.0 as int].location == location
                &&& l.state.builder.semantics == parts.state.builder.semantics
                &&& l.state.builder.snapped == parts.state.builder.snapped
                &&& l.state.builder.changed == parts.state.builder.changed
            }
        }),
{
    let l = lower_expr(db, before, expr);
    match expr {
        LoweredExpr::Tuple { exprs, location } => {
            let parts = lower_exprs(db, before, exprs@);
            let n = parts.state.variables.len() as int;
            assert(l.state.variables.len() == n + 1);
            assert(l.state.variables[n].location == location);
        },
        _ => {},
    }
}

/// Expressions are lowered one after the other, from where the ones before them left off.
pub proof fn law_lower_all_in_order(
    db: StructTable,
    before: State,
    exprs: Seq<LoweredExpr>,
    i: int,
)
    requires
        0 <= i < exprs.len(),
    ensures
        ({
            let first = lower_exprs(db, before, exprs.take(i));
            let l = lower_exprs(db, before, exprs);
            &&& l.value.len() == exprs.len()
            &&& l.value[i] == lower_expr(db, first.state, exprs[i]).value
            &&& lower_exprs(db, before, exprs.take(i + 1)).state == lower_expr(
                db,
                first.state,
                exprs[i],
            ).state
        }),
    decreases exprs.len(),
{
    assert(exprs.take(i + 1).drop_last() =~= exprs.take(i));
    if i < exprs.len() - 1 {
        let rest = exprs.drop_last();
        law_lower_all_in_order(db, before, rest, i);
        assert(rest.take(i) =~= exprs.take(i));
        assert(rest.take(i + 1) =~= exprs.take(i + 1));
        assert(rest[i] == exprs[i]);
        let first = lower_exprs(db, before, rest);
        assert(lower_exprs(db, before, exprs).value[i] == first.value[i]);
    } else {
        assert(exprs.take(i) =~= exprs.drop_last());
        assert(exprs.take(i + 1) =~= exprs);
        lemma_lower_len(db, before, exprs.drop_last());
    }
}

proof fn lemma_lower_len(db: StructTable, before: State, exprs: Seq<LoweredExpr>)
    ensures
        lower_exprs(db, before, exprs).value.len() == exprs.len(),
    decreases exprs.len(),
{
    if exprs.len() > 0 {
        lemma_lower_len(db, before, exprs.drop_last());
    }
}

/// A snapshot of an expression other than a path is taken of the variable that the value of the
/// expression was put into: one statement, which makes two new variables where the snapshot stands.
pub proof fn law_snapshot_is_placed(
    db: StructTable,
    before: State,
    expr: LoweredExpr,
    location: LocationId,
)
    requires
        !(expr is MemberPath),
        ({
            let snapshot = LoweredExpr::Snapshot { expr: Box::new(expr), location };
            &&& lower_expr(db, before, snapshot).ok
            &&& lower_expr(db, before, snapshot).state.variables.len() <= usize::MAX
        }),
    ensures
        ({
            let snapshot = LoweredExpr::Snapshot { expr: Box::new(expr), location };
            let inner = lower_expr(db, before, expr);
            let l = lower_expr(db, before, snapshot);
            let n = inner.state.variables.len();
            &&& inner.ok
            &&& l.state.builder.statements.len() == inner.state.builder.statements.len() + 1
            &&& l.state.builder.statements.last() matches StatementView::Snapshot {
                input,
                output_original,
                output_snapshot,
            } && {
                &&& input == inner.value
                &&& output_original.0 == n
                &&& output_snapshot.0 == n + 1
                &&& l.value.var_id == output_snapshot
            }
            &&& l.state.variables.len() == n + 2
            &&& l.state.variables[n as int].location == location
            &&& l.state.variables[(n + 1) as int].location == location
            &&& l.state.builder.semantics == inner.state.builder.semantics
            &&& l.state.builder.snapped == inner.state.builder.snapped
            &&& l.state.builder.changed == inner.state.builder.changed
        }),
{
    let snapshot = LoweredExpr::Snapshot { expr: Box::new(expr), location };
    let inner = lower_expr(db, before, expr);
    let l = lower_expr(db, before, snapshot);
    assert(l.state.variables.len() == inner.state.variables.len() + 2);
}

/// A snapshot of a path that has one that is still good is that one, and changes nothing but what is
/// emitted. Otherwise the snapshot is taken of what the path is read as, and recorded for the path,
/// and the path goes on in the other variable that taking a snapshot gives, and counts as changed.
pub proof fn law_snapshot_of_path(
    db: StructTable,
    before: State,
    path: ExprVarMemberPath,
    location: LocationId,
    q: MemberPath,
)
    requires
        snapshot_path(db, before, path, location).ok,
        snapshot_path(db, before, path, location).state.variables.len() <= usize::MAX,
        unique_keys(before.builder.snapped),
    ensures
        ({
            let known = read_snap(db, before, path);
            let l = snapshot_path(db, before, path, location);
            let after = l.state.builder;
            &&& l.value.location == location
            &&& known.value matches Some(usage) ==> {
                &&& l.value.var_id == usage.var_id
                &&& l.state == known.state
            }
            &&& known.value is None ==> {
                let r = read_ref(
                    db,
                    known.state,
                    path.path(),
                    location_of(path.spec_stable_ptr()),
                );
                let n = r.state.variables.len();
                &&& r.value is Some
                &&& lookup(after.semantics, path.path()) matches Some(Value::Var(original)) && {
                    let statements = r.state.builder.statements;
                    &&& original.0 == n
                    &&& l.value.var_id.0 == n + 1
                    &&& statements.len() < after.statements.len()
                    &&& after.statements[statements.len() as int] == (StatementView::Snapshot {
                        input: r.value.unwrap(),
                        output_original: original,
                        output_snapshot: l.value.var_id,
                    })
                }
                &&& n + 2 <= l.state.variables.len()
                &&& l.state.variables[n as int].location == location
                &&& l.state.variables[(n + 1) as int].location == location
                &&& value_of(after.snapped, path.path()) == Some(l.value.var_id)
                &&& q != path.path() ==> value_of(after.snapped, q) == value_of(
                    before.builder.snapped,
                    q,
                )
                &&& after.changed.contains(q) == (before.builder.changed.contains(q) || q
                    == path.path())
            }
        }),
{
    let at = location_of(path.spec_stable_ptr());
    let known = read_snap(db, before, path);
    let l = snapshot_path(db, before, path, location);
    if known.value is None {
        let r = read_ref(db, known.state, path.path(), at);
        let input = r.value.unwrap();
        let e = r.state.emitted();
        let s = r.state.emitting(snapshotted(e, input, location));
        let var = fresh(e, 0);
        let w = write_ref(db, s, path.path(), var, at);
        let n = r.state.variables.len() as int;
        lemma_snap_keeps(db, before, path);
        law_reads_and_writes_extend(
            db,
            s.builder.semantics,
            s.emitted(),
            path.path(),
            var,
            at,
        );
        assert(w.state.variables[n] == s.variables[n]);
        assert(w.state.variables[n + 1] == s.variables[n + 1]);
        assert(s.builder.statements.len() == e.statements.len() + 1);
        assert(w.state.builder.statements[e.statements.len() as int]
            == s.builder.statements[e.statements.len() as int]);
        lemma_inserted(w.state.builder.snapped, path.path(), fresh(e, 1));
        law_update_drops_snapshot(db, s, path.path(), var, at, q);
        if q != path.path() {
            assert(value_of(l.state.builder.snapped, q) == value_of(w.state.builder.snapped, q));
        }
        lemma_only_inserted(s.builder.changed, path.path(), q);
        law_get_twice(db, known.state, path.path(), at);
        lemma_read_is_lookup(db, r.state, path.path(), at);
        law_get_of_variable(db, s, path.path(), at, input.var_id);
        law_get_after_update(db, s, path.path(), var, at, at);
        lemma_read_is_lookup(db, w.state, path.path(), at);
    }
}

/// Reading a snapshot keeps the mapping, the recorded snapshots and the recorded changes.
proof fn lemma_snap_keeps(db: StructTable, before: State, path: ExprVarMemberPath)
    ensures
        ({
            let after = read_snap(db, before, path).state.builder;
            &&& after.semantics == before.builder.semantics
            &&& after.snapped == before.builder.snapped
            &&& after.changed == before.builder.changed
        }),
    decreases path,
{
    if value_of(before.builder.snapped, path.path()) is None {
        if let ExprVarMemberPath::Member { parent, .. } = path {
            lemma_snap_keeps(db, before, *parent);
        }
    }
}

/// A read that changes nothing gives what the mapping has.
proof fn lemma_read_is_lookup(
    db: StructTable,
    before: State,
    path: MemberPath,
    location: LocationId,
)
    requires
        read_ref(db, before, path, location).ok,
        read_ref(db, before, path, location).value is Some,
        read_ref(db, before, path, location).state.builder.semantics == before.builder.semantics,
    ensures
        lookup(before.builder.semantics, path) == Some(
            Value::Var(read_ref(db, before, path, location).value.unwrap().var_id),
        ),
{
    let entries = before.builder.semantics;
    let b = broken(db, entries, before.emitted(), path, location);
    lemma_broken_found(db, entries, before.emitted(), path, location);
    if let Some(value) = lookup(b.entries, path) {
        if value is Scattered {
            let var = assembled(value, b.emitted, location).1;
            lemma_lookup_stored(b.entries, path, Value::Var(var));
        }
    }
}

} // verus!
