//! Laws of what can always be done in a well-typed block.
use vstd::prelude::*;

use crate::block_builder::returned;
use crate::context::{location_of, path_ty, LoweredExpr, LoweringContext, StructTable};
use crate::generators::{fresh, snapshotted};
use crate::ids::{ConcreteStructId, LocationId, VariableId};
use crate::laws::builder::{
    law_get_snap_goes_on, law_lower_all_goes_on, law_lower_goes_on, law_steps_go_on,
};
use crate::laws::emission::{
    entries_in_scope, in_scope, law_reads_in_scope, law_writes_in_scope, members_in_scope,
    structs_known,
};
use crate::laws::mapping::root;
use crate::laws::meaning::{
    distinct_members, entries_fit, members_fit, path_fits, value_fits, Shape,
};
use crate::laws::merging::law_fitting_paths_are_readable;
use crate::laws::outcomes::block_of;
use crate::laws::typing::{
    entries_typed, expr_typed, expr_tys, exprs_typed, has_type, law_get_snap_typed, law_get_typed,
    law_lower_all_typed, law_lower_typed, lemma_expr_typed_of_more, lemma_snapshotted_typed,
    members_typed, path_typed, state_typed, value_typed,
};
use crate::member_path::{ExprVarMemberPath, MemberPath};
use crate::merge::member_of;
use crate::objects::{BlockEndView, VarUsage, Variable};
use crate::ordered::{has_key, unique_keys, value_of};
use crate::refs::{Members, Value};
use crate::state::{
    capture, captured_exprs, lower_expr, lower_exprs, read_ref, read_refs, read_snap, snapshot_path,
    usage_types, write_ref, BuilderView, State,
};
use crate::types::{type_list, Type};

verus! {

/// The struct that the value of each path is of, by type.
pub open spec fn typed_shape(db: StructTable, defs: Map<u64, Type>) -> Shape {
    |path: MemberPath|
        match path_ty(db, defs, path) {
            Some(Type::Struct(id)) => id,
            _ => ConcreteStructId(0),
        }
}

proof fn lemma_typed_path_fits(db: StructTable, defs: Map<u64, Type>, path: MemberPath)
    requires
        path_typed(db, defs, path),
    ensures
        path_fits(db, typed_shape(db, defs), path),
        structs_known(db, path),
    decreases path,
{
    if let MemberPath::Member { parent, .. } = path {
        lemma_typed_path_fits(db, defs, *parent);
    }
}

proof fn lemma_typed_value_fits(
    db: StructTable,
    defs: Map<u64, Type>,
    variables: Seq<Variable>,
    path: MemberPath,
    value: Value,
)
    requires
        value_typed(db, defs, variables, path, value),
    ensures
        value_fits(db, typed_shape(db, defs), path, value),
        in_scope(value, variables.len()),
    decreases value,
{
    if let Value::Scattered { concrete_struct_id, members } = value {
        lemma_typed_members_fit(db, defs, variables, path, concrete_struct_id, *members);
    }
}

proof fn lemma_typed_members_fit(
    db: StructTable,
    defs: Map<u64, Type>,
    variables: Seq<Variable>,
    path: MemberPath,
    concrete_struct_id: ConcreteStructId,
    members: Members,
)
    requires
        members_typed(db, defs, variables, path, concrete_struct_id, members),
    ensures
        members_fit(db, typed_shape(db, defs), path, concrete_struct_id, members),
        members_in_scope(members, variables.len()),
    decreases members,
{
    if let Members::Cons { member_id, value, rest } = members {
        lemma_typed_value_fits(
            db,
            defs,
            variables,
            member_of(path, member_id, concrete_struct_id),
            *value,
        );
        lemma_typed_members_fit(db, defs, variables, path, concrete_struct_id, *rest);
    }
}

/// A well-typed mapping is of the structs that its paths are of, in variables that exist.
pub proof fn law_typed_is_shaped(
    db: StructTable,
    defs: Map<u64, Type>,
    variables: Seq<Variable>,
    entries: Seq<(MemberPath, Value)>,
)
    requires
        entries_typed(db, defs, variables, entries),
    ensures
        entries_fit(db, typed_shape(db, defs), entries),
        entries_in_scope(entries, variables.len()),
{
    assert forall|path: MemberPath| (#[trigger] value_of(entries, path)) is Some implies value_fits(
        db,
        typed_shape(db, defs),
        path,
        value_of(entries, path).unwrap(),
    ) && in_scope(value_of(entries, path).unwrap(), variables.len()) by {
        lemma_typed_value_fits(db, defs, variables, path, value_of(entries, path).unwrap());
    }
}

/// In a well-typed block every path of a variable that the builder has can be read and written, and
/// a read gives a variable.
pub proof fn law_get_and_update_succeed(
    db: StructTable,
    defs: Map<u64, Type>,
    before: State,
    path: MemberPath,
    var: VariableId,
    location: LocationId,
)
    requires
        distinct_members(db),
        path_typed(db, defs, path),
        state_typed(db, defs, before),
        var.0 < before.variables.len(),
        read_ref(db, before, path, location).state.variables.len() <= usize::MAX,
        write_ref(db, before, path, var, location).state.variables.len() <= usize::MAX,
    ensures
        read_ref(db, before, path, location).ok,
        write_ref(db, before, path, var, location).ok,
        has_key(before.builder.semantics, MemberPath::Var(root(path))) ==> read_ref(
            db,
            before,
            path,
            location,
        ).value is Some,
{
    let entries = before.builder.semantics;
    let emitted = before.emitted();
    lemma_typed_path_fits(db, defs, path);
    law_typed_is_shaped(db, defs, before.variables, entries);
    law_reads_in_scope(db, entries, emitted, path, location);
    law_writes_in_scope(db, entries, emitted, path, var, location);
    if has_key(entries, MemberPath::Var(root(path))) {
        law_fitting_paths_are_readable(
            db,
            typed_shape(db, defs),
            entries,
            emitted,
            path,
            location,
        );
    }
}

/// In a well-typed block the snapshot of every path can be asked for.
pub proof fn law_get_snap_succeeds(
    db: StructTable,
    defs: Map<u64, Type>,
    before: State,
    path: ExprVarMemberPath,
)
    requires
        distinct_members(db),
        path_typed(db, defs, path.path()),
        state_typed(db, defs, before),
        read_snap(db, before, path).state.variables.len() <= usize::MAX,
    ensures
        read_snap(db, before, path).ok,
    decreases path,
{
    if value_of(before.builder.snapped, path.path()) is None {
        if let ExprVarMemberPath::Member { parent, .. } = path {
            let above = read_snap(db, before, *parent);
            assert(above.state.variables.len() <= read_snap(
                db,
                before,
                path,
            ).state.variables.len());
            law_get_snap_succeeds(db, defs, before, *parent);
            law_get_snap_typed(db, defs, before, *parent);
        }
    }
}

/// Whether the builder has the variables of all the paths of an expression.
pub open spec fn expr_mapped(entries: Seq<(MemberPath, Value)>, expr: LoweredExpr) -> bool
    decreases expr,
{
    match expr {
        LoweredExpr::AtVariable(_) => true,
        LoweredExpr::Tuple { exprs, .. } => exprs_mapped(entries, exprs@),
        LoweredExpr::MemberPath(path, _) => has_key(
            entries,
            MemberPath::Var(root(path.path())),
        ),
        LoweredExpr::Snapshot { expr: inner, .. } => expr_mapped(entries, *inner),
    }
}

/// Whether the builder has the variables of all the paths of expressions.
pub open spec fn exprs_mapped(entries: Seq<(MemberPath, Value)>, exprs: Seq<LoweredExpr>) -> bool
    decreases exprs,
{
    exprs.len() > 0 ==> exprs_mapped(entries, exprs.drop_last()) && expr_mapped(
        entries,
        exprs[exprs.len() - 1],
    )
}

proof fn lemma_expr_mapped_of_more(
    entries: Seq<(MemberPath, Value)>,
    more: Seq<(MemberPath, Value)>,
    expr: LoweredExpr,
)
    requires
        expr_mapped(entries, expr),
        forall|key: MemberPath| has_key(entries, key) ==> #[trigger] has_key(more, key),
    ensures
        expr_mapped(more, expr),
    decreases expr,
{
    match expr {
        LoweredExpr::Tuple { exprs, .. } => {
            lemma_exprs_mapped_of_more(entries, more, exprs@);
        },
        LoweredExpr::Snapshot { expr: inner, .. } => {
            lemma_expr_mapped_of_more(entries, more, *inner);
        },
        _ => {},
    }
}

proof fn lemma_exprs_mapped_of_more(
    entries: Seq<(MemberPath, Value)>,
    more: Seq<(MemberPath, Value)>,
    exprs: Seq<LoweredExpr>,
)
    requires
        exprs_mapped(entries, exprs),
        forall|key: MemberPath| has_key(entries, key) ==> #[trigger] has_key(more, key),
    ensures
        exprs_mapped(more, exprs),
    decreases exprs,
{
    if exprs.len() > 0 {
        lemma_exprs_mapped_of_more(entries, more, exprs.drop_last());
        lemma_expr_mapped_of_more(entries, more, exprs[exprs.len() - 1]);
    }
}

/// In a well-typed block a snapshot can be taken of every path of a variable that the builder has.
proof fn lemma_snapshot_path_succeeds(
    db: StructTable,
    defs: Map<u64, Type>,
    before: State,
    path: ExprVarMemberPath,
    location: LocationId,
)
    requires
        distinct_members(db),
        path_typed(db, defs, path.path()),
        has_key(before.builder.semantics, MemberPath::Var(root(path.path()))),
        state_typed(db, defs, before),
        snapshot_path(db, before, path, location).state.variables.len() <= usize::MAX,
    ensures
        snapshot_path(db, before, path, location).ok,
{
    let at = location_of(path.spec_stable_ptr());
    let known = read_snap(db, before, path);
    if known.value is None {
        let r = read_ref(db, known.state, path.path(), at);
        let input = r.value.unwrap();
        let e = r.state.emitted();
        let s = r.state.emitting(snapshotted(e, input, location));
        let w = write_ref(db, s, path.path(), fresh(e, 0), at);
        law_steps_go_on(db, s, path.path(), fresh(e, 0), at);
        law_steps_go_on(db, known.state, path.path(), fresh(e, 0), at);
        assert(s.variables.len() == r.state.variables.len() + 2);
        assert(s.variables.len() <= w.state.variables.len());
        assert(known.state.variables.len() <= r.state.variables.len());
        law_get_snap_goes_on(db, before, path);
        law_get_snap_succeeds(db, defs, before, path);
        law_get_snap_typed(db, defs, before, path);
        let entries = known.state.builder.semantics;
        assert(entries == before.builder.semantics);
        lemma_read_succeeds(db, defs, known.state, path.path(), at);
        law_get_typed(db, defs, known.state, path.path(), at);
        lemma_snapshotted_typed(db, defs, r.state, input, location);
        lemma_write_succeeds(db, defs, s, path.path(), fresh(e, 0), at);
    } else {
        law_get_snap_succeeds(db, defs, before, path);
    }
}

proof fn lemma_read_succeeds(
    db: StructTable,
    defs: Map<u64, Type>,
    before: State,
    path: MemberPath,
    location: LocationId,
)
    requires
        distinct_members(db),
        path_typed(db, defs, path),
        state_typed(db, defs, before),
        has_key(before.builder.semantics, MemberPath::Var(root(path))),
        read_ref(db, before, path, location).state.variables.len() <= usize::MAX,
    ensures
        read_ref(db, before, path, location).ok,
        read_ref(db, before, path, location).value is Some,
{
    let entries = before.builder.semantics;
    let emitted = before.emitted();
    lemma_typed_path_fits(db, defs, path);
    law_typed_is_shaped(db, defs, before.variables, entries);
    law_reads_in_scope(db, entries, emitted, path, location);
    law_fitting_paths_are_readable(
        db,
        typed_shape(db, defs),
        entries,
        emitted,
        path,
        location,
    );
}

proof fn lemma_write_succeeds(
    db: StructTable,
    defs: Map<u64, Type>,
    before: State,
    path: MemberPath,
    var: VariableId,
    location: LocationId,
)
    requires
        distinct_members(db),
        path_typed(db, defs, path),
        state_typed(db, defs, before),
        var.0 < before.variables.len(),
        write_ref(db, before, path, var, location).state.variables.len() <= usize::MAX,
    ensures
        write_ref(db, before, path, var, location).ok,
{
    lemma_typed_path_fits(db, defs, path);
    law_typed_is_shaped(db, defs, before.variables, before.builder.semantics);
    law_writes_in_scope(
        db,
        before.builder.semantics,
        before.emitted(),
        path,
        var,
        location,
    );
}

/// In a well-typed block the value of every well-typed expression can be put into a variable, where
/// the builder has the variables of its paths.
pub proof fn law_lower_succeeds(
    db: StructTable,
    defs: Map<u64, Type>,
    before: State,
    expr: LoweredExpr,
)
    requires
        distinct_members(db),
        expr_typed(db, defs, before.variables, expr),
        expr_mapped(before.builder.semantics, expr),
        state_typed(db, defs, before),
        unique_keys(before.builder.snapped),
        lower_expr(db, before, expr).state.variables.len() <= usize::MAX,
    ensures
        lower_expr(db, before, expr).ok,
    decreases expr,
{
    let after = lower_expr(db, before, expr);
    match expr {
        LoweredExpr::AtVariable(_) => {},
        LoweredExpr::Tuple { exprs, .. } => {
            let l = lower_exprs(db, before, exprs@);
            assert(after.state.variables.len() == l.state.variables.len() + 1);
            law_lower_all_succeeds(db, defs, before, exprs@);
            law_lower_all_typed(db, defs, before, exprs@);
        },
        LoweredExpr::MemberPath(path, _) => {
            let at = location_of(path.spec_stable_ptr());
            lemma_read_succeeds(db, defs, before, path.path(), at);
        },
        LoweredExpr::Snapshot { expr: inner, location } => match *inner {
            LoweredExpr::MemberPath(path, _) => {
                assert(expr_typed(db, defs, before.variables, *inner));
                assert(expr_mapped(before.builder.semantics, *inner));
                lemma_snapshot_path_succeeds(db, defs, before, path, location);
            },
            _ => {
                let l = lower_expr(db, before, *inner);
                assert(after.state.variables.len() == l.state.variables.len() + 2);
                law_lower_succeeds(db, defs, before, *inner);
                law_lower_typed(db, defs, before, *inner);
            },
        },
    }
}

/// In a well-typed block the values of well-typed expressions can all be put into variables, where
/// the builder has the variables of their paths.
pub proof fn law_lower_all_succeeds(
    db: StructTable,
    defs: Map<u64, Type>,
    before: State,
    exprs: Seq<LoweredExpr>,
)
    requires
        distinct_members(db),
        exprs_typed(db, defs, before.variables, exprs),
        exprs_mapped(before.builder.semantics, exprs),
        state_typed(db, defs, before),
        unique_keys(before.builder.snapped),
        lower_exprs(db, before, exprs).state.variables.len() <= usize::MAX,
    ensures
        lower_exprs(db, before, exprs).ok,
    decreases exprs,
{
    if exprs.len() > 0 {
        let first = lower_exprs(db, before, exprs.drop_last());
        let expr = exprs[exprs.len() - 1];
        law_lower_goes_on(db, first.state, expr);
        assert(first.state.variables.len() <= lower_exprs(
            db,
            before,
            exprs,
        ).state.variables.len());
        law_lower_all_goes_on(db, before, exprs.drop_last());
        law_lower_all_succeeds(db, defs, before, exprs.drop_last());
        law_lower_all_typed(db, defs, before, exprs.drop_last());
        lemma_expr_typed_of_more(db, defs, before.variables, first.state.variables, expr);
        lemma_expr_mapped_of_more(
            before.builder.semantics,
            first.state.builder.semantics,
            expr,
        );
        law_lower_succeeds(db, defs, first.state, expr);
    }
}

/// In a well-typed block a closure can be built from paths of variables that the builder has, where
/// its type names the types of the paths, and behind them those of the snapshots.
pub proof fn law_capture_succeeds(
    db: StructTable,
    defs: Map<u64, Type>,
    before: State,
    usage: Seq<(MemberPath, ExprVarMemberPath)>,
    changes: Seq<(MemberPath, ExprVarMemberPath)>,
    snap_usage: Seq<(MemberPath, ExprVarMemberPath)>,
    ty: Type,
    location: LocationId,
)
    requires
        distinct_members(db),
        state_typed(db, defs, before),
        unique_keys(before.builder.snapped),
        exprs_typed(
            db,
            defs,
            before.variables,
            captured_exprs(usage, snap_usage, location),
        ),
        exprs_mapped(
            before.builder.semantics,
            captured_exprs(usage, snap_usage, location),
        ),
        ty matches Type::Closure(closure) && closure.captured_types == type_list(
            expr_tys(db, defs, before.variables, captured_exprs(usage, snap_usage, location)),
        ),
        capture(
            db,
            before,
            usage,
            changes,
            snap_usage,
            ty,
            location,
        ).state.variables.len() <= usize::MAX,
    ensures
        capture(db, before, usage, changes, snap_usage, ty, location).ok,
{
    let exprs = captured_exprs(usage, snap_usage, location);
    let l = lower_exprs(db, before, exprs);
    let c = capture(db, before, usage, changes, snap_usage, ty, location);
    assert(c.state.variables.len() == l.state.variables.len() + 1);
    law_lower_all_succeeds(db, defs, before, exprs);
    law_lower_all_typed(db, defs, before, exprs);
    assert(usage_types(l.state.variables, l.value) =~= expr_tys(
        db,
        defs,
        before.variables,
        exprs,
    ));
}

// Returns.

proof fn lemma_read_refs_typed(
    db: StructTable,
    defs: Map<u64, Type>,
    before: State,
    paths: Seq<ExprVarMemberPath>,
)
    requires
        distinct_members(db),
        state_typed(db, defs, before),
        forall|k: int| 0 <= k < paths.len() ==> path_typed(db, defs, (#[trigger] paths[k]).path()),
        read_refs(db, before, paths).state.variables.len() <= usize::MAX,
    ensures
        ({
            let r = read_refs(db, before, paths);
            &&& r.ok
            &&& state_typed(db, defs, r.state)
            &&& before.variables.is_prefix_of(r.state.variables)
            &&& r.value matches Some(usages) ==> usages.len() == paths.len() && forall|k: int|
                0 <= k < paths.len() ==> has_type(
                    r.state.variables,
                    (#[trigger] usages[k]).var_id,
                    path_ty(db, defs, paths[k].path()).unwrap(),
                )
        }),
    decreases paths.len(),
{
    let n = before.variables.len() as int;
    assert(before.variables =~= before.variables.subrange(0, n));
    if paths.len() > 0 {
        let rest = paths.drop_last();
        let first = read_refs(db, before, rest);
        let r = read_refs(db, before, paths);
        let path = paths[paths.len() - 1];
        let at = location_of(path.spec_stable_ptr());
        let last = read_ref(db, first.state, path.path(), at);
        assert forall|k: int| 0 <= k < rest.len() implies path_typed(
            db,
            defs,
            (#[trigger] rest[k]).path(),
        ) by {
            assert(rest[k] == paths[k]);
        }
        law_steps_go_on(db, first.state, path.path(), VariableId(0), at);
        assert(first.state.variables.len() <= last.state.variables.len());
        lemma_read_refs_typed(db, defs, before, rest);
        if let Some(usages) = first.value {
            lemma_typed_path_fits(db, defs, path.path());
            law_typed_is_shaped(db, defs, first.state.variables, first.state.builder.semantics);
            law_reads_in_scope(
                db,
                first.state.builder.semantics,
                first.state.emitted(),
                path.path(),
                at,
            );
            law_get_typed(db, defs, first.state, path.path(), at);
            if let Some(all) = r.value {
                assert forall|k: int| 0 <= k < paths.len() implies has_type(
                    r.state.variables,
                    (#[trigger] all[k]).var_id,
                    path_ty(db, defs, paths[k].path()).unwrap(),
                ) by {
                    if k < rest.len() {
                        let var = usages[k].var_id;
                        assert(all[k] == usages[k]);
                        assert(rest[k] == paths[k]);
                        assert(r.state.variables[var.0 as int]
                            == first.state.variables[var.0 as int]);
                    }
                }
            }
        }
    }
}

/// In a well-typed block a return can always be made. Each reference that it returns has the type of
/// its path.
pub proof fn law_return_typed(
    ctx: LoweringContext,
    builder: BuilderView,
    expr: VarUsage,
    location: LocationId,
)
    requires
        distinct_members(ctx.db),
        state_typed(
            ctx.db,
            ctx.semantic_defs@,
            State { builder, variables: ctx.variables@ },
        ),
        forall|k: int|
            0 <= k < ctx.signature.extra_rets@.len() ==> path_typed(
                ctx.db,
                ctx.semantic_defs@,
                (#[trigger] ctx.signature.extra_rets@[k]).path(),
            ),
        builder.block_id.0 < ctx.blocks@.len(),
        returned(ctx, builder, expr, location).variables.len() <= usize::MAX,
    ensures
        ({
            let r = returned(ctx, builder, expr, location);
            let rets = ctx.signature.extra_rets@;
            let block = block_of(r.blocks, builder);
            &&& r.ok
            &&& r.result is Ok ==> (block.end matches BlockEndView::Return(values, _) && {
                &&& values.len() == rets.len() + 1
                &&& forall|k: int|
                    0 <= k < rets.len() ==> has_type(
                        r.variables,
                        (#[trigger] values[k]).var_id,
                        path_ty(ctx.db, ctx.semantic_defs@, rets[k].path()).unwrap(),
                    )
            })
        }),
{
    let rets = ctx.signature.extra_rets@;
    let before = State { builder, variables: ctx.variables@ };
    let out = returned(ctx, builder, expr, location);
    let r = read_refs(ctx.db, before, rets);
    lemma_read_refs_typed(ctx.db, ctx.semantic_defs@, before, rets);
    if let Some(usages) = r.value {
        let values = usages.push(expr);
        lemma_refs_keep_block(ctx.db, before, rets);
        assert forall|k: int| 0 <= k < rets.len() implies has_type(
            out.variables,
            (#[trigger] values[k]).var_id,
            path_ty(ctx.db, ctx.semantic_defs@, rets[k].path()).unwrap(),
        ) by {
            assert(values[k] == usages[k]);
        }
    }
}

proof fn lemma_refs_keep_block(
    db: StructTable,
    before: State,
    paths: Seq<ExprVarMemberPath>,
)
    ensures
        read_refs(db, before, paths).state.builder.block_id == before.builder.block_id,
    decreases paths.len(),
{
    if paths.len() > 0 {
        lemma_refs_keep_block(db, before, paths.drop_last());
    }
}

} // verus!
