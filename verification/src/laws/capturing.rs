//! Laws of snapshots and of closures.
use vstd::prelude::*;

use crate::block_builder::{state, BlockBuilder};
use crate::block_builder::closures::{capture_step, ExprClosure, Usage};
use crate::context::{location_of, member_position, LoweredExpr, LoweringContext, StructTable};
use crate::generators::{fresh, fresh_ids, snapshotted, Emitted};
use crate::ids::{LocationId, VariableId};
use crate::laws::builder::{
    law_get_contents, law_get_snap_goes_on, law_lower_goes_on, law_steps_go_on, law_update_contents,
    law_update_drops_snapshot,
};
use crate::laws::mapping::{apart, law_entries_stay};
use crate::laws::meaning::{
    all_hold, contents_at, distinct_members, entries_fit, holds, law_write_same_contents,
    lemma_member_position_is, path_fits, Contents, Shape, Valuation,
};
use crate::laws::merging::well_shaped;
use crate::member_path::{ExprVarMemberPath, MemberPath};
use crate::objects::{StatementView, VarUsage, Variable};
use crate::ordered::{
    collected, has_key, inserted, lemma_collected_distinct, lemma_inserted, lemma_position,
    lemma_swap_removed, path_exprs, path_types, position, unique_keys, value_of,
};
use crate::recomposer::deconstructed;
use crate::refs::{captured_types, ClosureInfo, Value};
use crate::state::{
    capture, captured_exprs, lower_expr, lower_exprs, read_ref, read_snap, snapshot_path,
    typed_paths, typed_snapshots, usage_types, write_ref, BuilderView, State,
};
use crate::types::{type_list, Type};

verus! {

// Snapshots.

/// Whether the snapshot that is recorded for a path, if there is one, has the contents of the path.
pub open spec fn snapshot_good(
    db: StructTable,
    builder: BuilderView,
    env: Valuation,
    path: MemberPath,
) -> bool {
    value_of(builder.snapped, path) matches Some(var) ==> env(var) == contents_at(
        db,
        builder.semantics,
        env,
        path,
    )
}

/// A snapshot stays good until its path is updated: an update drops the snapshot of the path, and
/// the snapshot of a path apart from it has the contents of that path as before.
pub proof fn law_snapshot_stays_good(
    db: StructTable,
    shape: Shape,
    before: State,
    path: MemberPath,
    var: VariableId,
    location: LocationId,
    env: Valuation,
    q: MemberPath,
)
    requires
        distinct_members(db),
        unique_keys(before.builder.snapped),
        entries_fit(db, shape, before.builder.semantics),
        path_fits(db, shape, path),
        path_fits(db, shape, q),
        write_ref(db, before, path, var, location).ok,
        read_ref(db, before, path, location).value is Some,
        all_hold(write_ref(db, before, path, var, location).state.builder.statements, env),
        snapshot_good(db, before.builder, env, q),
        q == path || apart(path, q),
    ensures
        snapshot_good(
            db,
            write_ref(db, before, path, var, location).state.builder,
            env,
            q,
        ),
{
    law_update_drops_snapshot(db, before, path, var, location, q);
    law_update_contents(db, shape, before, path, var, location, env, q);
}

/// Whether a mapping is well shaped, no path has two snapshots, and each snapshot has the contents
/// of its path.
pub open spec fn sound(
    db: StructTable,
    shape: Shape,
    builder: BuilderView,
    env: Valuation,
) -> bool {
    &&& well_shaped(db, shape, builder.semantics)
    &&& unique_keys(builder.snapped)
    &&& forall|path: MemberPath| #[trigger] snapshot_good(db, builder, env, path)
}

/// Whether every path has the contents that it had.
pub open spec fn same_everywhere(
    db: StructTable,
    before: BuilderView,
    after: BuilderView,
    env: Valuation,
) -> bool {
    forall|path: MemberPath| #[trigger]
        contents_at(db, after.semantics, env, path) == contents_at(db, before.semantics, env, path)
}

/// `get_snap_ref` gives a variable with the contents of the path, also where it is taken out of the
/// snapshot of a parent.
pub proof fn law_get_snap_contents(
    db: StructTable,
    shape: Shape,
    before: State,
    path: ExprVarMemberPath,
    env: Valuation,
)
    requires
        sound(db, shape, before.builder, env),
        path_fits(db, shape, path.path()),
        read_snap(db, before, path).ok,
        read_snap(db, before, path).value is Some,
        all_hold(read_snap(db, before, path).state.builder.statements, env),
    ensures
        env(read_snap(db, before, path).value.unwrap().var_id) == contents_at(
            db,
            before.builder.semantics,
            env,
            path.path(),
        ),
    decreases path,
{
    let entries = before.builder.semantics;
    assert(snapshot_good(db, before.builder, env, path.path()));
    if value_of(before.builder.snapped, path.path()) is None {
        if let ExprVarMemberPath::Member { parent, member_id, concrete_struct_id, .. } = path {
            let p = read_snap(db, before, *parent);
            let r = read_snap(db, before, path);
            let e = p.state.emitted();
            let input = p.value.unwrap();
            let members = db.members(concrete_struct_id).unwrap();
            let i = member_position(members, member_id).unwrap();
            let outputs = fresh_ids(e, members.len());
            assert(!has_key(entries, path.path()));
            lemma_member_position_is(members, member_id);
            assert(r.state.builder.statements == e.statements.push(
                StatementView::StructDestructure { input, outputs },
            ));
            lemma_holds_before(e.statements, r.state.builder.statements, env);
            law_get_snap_contents(db, shape, before, *parent, env);
            let last = r.state.builder.statements[e.statements.len() as int];
            assert(holds(last, env));
            assert(outputs.map_values(|var: VariableId| env(var))[i] == env(outputs[i]));
        }
    }
}

/// The number of members between a path and the longest part of it that has a snapshot.
pub open spec fn snap_distance(
    snapped: Seq<(MemberPath, VariableId)>,
    path: ExprVarMemberPath,
) -> nat
    decreases path,
{
    if has_key(snapped, path.path()) {
        0
    } else {
        match path {
            ExprVarMemberPath::Var(_) => 0,
            ExprVarMemberPath::Member { parent, .. } => snap_distance(snapped, *parent) + 1,
        }
    }
}

/// `get_snap_ref` takes one struct apart for each member between the path and the longest part of
/// it that has a snapshot, and emits nothing else.
pub proof fn law_get_snap_statements(db: StructTable, before: State, path: ExprVarMemberPath)
    requires
        read_snap(db, before, path).ok,
        read_snap(db, before, path).value is Some,
    ensures
        ({
            let n = before.builder.statements.len();
            let after = read_snap(db, before, path).state.builder.statements;
            &&& after.len() == n + snap_distance(before.builder.snapped, path)
            &&& before.builder.statements.is_prefix_of(after)
            &&& forall|i: int| n <= i < after.len() ==> (#[trigger] after[i]) is StructDestructure
        }),
    decreases path,
{
    law_get_snap_goes_on(db, before, path);
    if value_of(before.builder.snapped, path.path()) is None {
        if let ExprVarMemberPath::Member { parent, .. } = path {
            law_get_snap_statements(db, before, *parent);
            let above = read_snap(db, before, *parent).state.builder.statements;
            let after = read_snap(db, before, path).state.builder.statements;
            let n = before.builder.statements.len();
            assert forall|i: int| n <= i < after.len() implies (
            #[trigger] after[i]) is StructDestructure by {
                if i < above.len() {
                    assert(after[i] == above[i]);
                }
            }
        }
    }
}

/// What holds of statements holds of the first of them.
proof fn lemma_holds_before(
    before: Seq<StatementView>,
    after: Seq<StatementView>,
    env: Valuation,
)
    requires
        before.is_prefix_of(after),
        all_hold(after, env),
    ensures
        all_hold(before, env),
{
    assert forall|i: int| 0 <= i < before.len() implies holds(#[trigger] before[i], env) by {
        assert(before[i] == after[i]);
    }
}

// Expressions.

/// The contents of an expression.
pub open spec fn expr_contents(
    db: StructTable,
    entries: Seq<(MemberPath, Value)>,
    env: Valuation,
    expr: LoweredExpr,
) -> Contents
    decreases expr,
{
    match expr {
        LoweredExpr::AtVariable(usage) => env(usage.var_id),
        LoweredExpr::Tuple { exprs, .. } => Contents::Struct(
            exprs_contents(db, entries, env, exprs@),
        ),
        LoweredExpr::MemberPath(path, _) => contents_at(db, entries, env, path.path()),
        LoweredExpr::Snapshot { expr: inner, .. } => expr_contents(db, entries, env, *inner),
    }
}

/// The contents of expressions.
pub open spec fn exprs_contents(
    db: StructTable,
    entries: Seq<(MemberPath, Value)>,
    env: Valuation,
    exprs: Seq<LoweredExpr>,
) -> Seq<Contents>
    decreases exprs,
{
    if exprs.len() == 0 {
        Seq::empty()
    } else {
        exprs_contents(db, entries, env, exprs.drop_last()).push(
            expr_contents(db, entries, env, exprs[exprs.len() - 1]),
        )
    }
}

/// Whether each member on the paths of an expression is one of the struct that its parent is of.
pub open spec fn expr_fits(db: StructTable, shape: Shape, expr: LoweredExpr) -> bool
    decreases expr,
{
    match expr {
        LoweredExpr::AtVariable(_) => true,
        LoweredExpr::Tuple { exprs, .. } => exprs_fit(db, shape, exprs@),
        LoweredExpr::MemberPath(path, _) => path_fits(db, shape, path.path()),
        LoweredExpr::Snapshot { expr: inner, .. } => expr_fits(db, shape, *inner),
    }
}

/// Whether each of the expressions fits.
pub open spec fn exprs_fit(db: StructTable, shape: Shape, exprs: Seq<LoweredExpr>) -> bool
    decreases exprs,
{
    exprs.len() > 0 ==> exprs_fit(db, shape, exprs.drop_last()) && expr_fits(
        db,
        shape,
        exprs[exprs.len() - 1],
    )
}

/// A read keeps soundness and contents.
proof fn lemma_read_sound(
    db: StructTable,
    shape: Shape,
    before: State,
    path: MemberPath,
    location: LocationId,
    env: Valuation,
)
    requires
        sound(db, shape, before.builder, env),
        path_fits(db, shape, path),
        read_ref(db, before, path, location).ok,
        all_hold(read_ref(db, before, path, location).state.builder.statements, env),
    ensures
        sound(db, shape, read_ref(db, before, path, location).state.builder, env),
        same_everywhere(
            db,
            before.builder,
            read_ref(db, before, path, location).state.builder,
            env,
        ),
{
    let after = read_ref(db, before, path, location).state.builder;
    let entries = before.builder.semantics;
    assert forall|q: MemberPath| #[trigger]
        contents_at(db, after.semantics, env, q) == contents_at(db, entries, env, q) by {
        law_get_contents(db, shape, before, path, location, env, q);
    }
    law_get_contents(db, shape, before, path, location, env, path);
    assert forall|key: MemberPath| #[trigger] has_key(after.semantics, key) implies key is Var by {
        law_entries_stay(db, entries, before.emitted(), path, VariableId(0), location, key);
        assert(has_key(entries, key));
    }
    assert forall|q: MemberPath| #[trigger] snapshot_good(db, after, env, q) by {
        assert(snapshot_good(db, before.builder, env, q));
        assert(contents_at(db, after.semantics, env, q) == contents_at(db, entries, env, q));
    }
}

/// A write of what the path holds keeps soundness and contents.
proof fn lemma_write_back_sound(
    db: StructTable,
    shape: Shape,
    before: State,
    path: MemberPath,
    var: VariableId,
    location: LocationId,
    env: Valuation,
)
    requires
        sound(db, shape, before.builder, env),
        path_fits(db, shape, path),
        write_ref(db, before, path, var, location).ok,
        all_hold(write_ref(db, before, path, var, location).state.builder.statements, env),
        env(var) == contents_at(db, before.builder.semantics, env, path),
    ensures
        sound(db, shape, write_ref(db, before, path, var, location).state.builder, env),
        same_everywhere(
            db,
            before.builder,
            write_ref(db, before, path, var, location).state.builder,
            env,
        ),
{
    let after = write_ref(db, before, path, var, location).state.builder;
    let entries = before.builder.semantics;
    let e = before.emitted();
    assert forall|q: MemberPath| #[trigger]
        contents_at(db, after.semantics, env, q) == contents_at(db, entries, env, q) by {
        law_write_same_contents(db, shape, entries, e, path, var, location, env, q);
    }
    law_write_same_contents(db, shape, entries, e, path, var, location, env, path);
    assert forall|key: MemberPath| #[trigger] has_key(after.semantics, key) implies key is Var by {
        law_entries_stay(db, entries, e, path, var, location, key);
        assert(has_key(entries, key));
    }
    law_steps_go_on(db, before, path, var, location);
    lemma_swap_removed(before.builder.snapped, path);
    assert forall|q: MemberPath| #[trigger] snapshot_good(db, after, env, q) by {
        law_update_drops_snapshot(db, before, path, var, location, q);
        assert(snapshot_good(db, before.builder, env, q));
        assert(contents_at(db, after.semantics, env, q) == contents_at(db, entries, env, q));
    }
}

/// A snapshot of the value at a path has the contents of the path.
proof fn lemma_snapshot_path_contents(
    db: StructTable,
    shape: Shape,
    before: State,
    path: ExprVarMemberPath,
    location: LocationId,
    env: Valuation,
)
    requires
        sound(db, shape, before.builder, env),
        path_fits(db, shape, path.path()),
        snapshot_path(db, before, path, location).ok,
        all_hold(snapshot_path(db, before, path, location).state.builder.statements, env),
    ensures
        ({
            let l = snapshot_path(db, before, path, location);
            &&& env(l.value.var_id) == contents_at(
                db,
                before.builder.semantics,
                env,
                path.path(),
            )
            &&& sound(db, shape, l.state.builder, env)
            &&& same_everywhere(db, before.builder, l.state.builder, env)
        }),
{
    let at = location_of(path.spec_stable_ptr());
    let l = snapshot_path(db, before, path, location);
    let known = read_snap(db, before, path);
    law_get_snap_goes_on(db, before, path);
    lemma_sound_alike(db, shape, before.builder, known.state.builder, env);
    match known.value {
        Some(_) => {
            law_get_snap_contents(db, shape, before, path, env);
        },
        None => {
            let r = read_ref(db, known.state, path.path(), at);
            let input = r.value.unwrap();
            let e = r.state.emitted();
            let s = r.state.emitting(snapshotted(e, input, location));
            let w = write_ref(db, s, path.path(), fresh(e, 0), at);
            law_steps_go_on(db, s, path.path(), fresh(e, 0), at);
            assert(w.state.builder.statements == l.state.builder.statements);
            lemma_holds_before(s.builder.statements, w.state.builder.statements, env);
            assert(s.builder.statements == e.statements.push(
                StatementView::Snapshot {
                    input,
                    output_original: fresh(e, 0),
                    output_snapshot: fresh(e, 1),
                },
            ));
            assert(holds(s.builder.statements[e.statements.len() as int], env));
            lemma_holds_before(e.statements, s.builder.statements, env);
            lemma_read_sound(db, shape, known.state, path.path(), at, env);
            law_get_contents(db, shape, known.state, path.path(), at, env, path.path());
            lemma_sound_alike(db, shape, r.state.builder, s.builder, env);
            lemma_write_back_sound(db, shape, s, path.path(), fresh(e, 0), at, env);
            lemma_inserted(w.state.builder.snapped, path.path(), fresh(e, 1));
            assert forall|q: MemberPath| #[trigger]
                snapshot_good(db, l.state.builder, env, q) by {
                assert(snapshot_good(db, w.state.builder, env, q));
                if q != path.path() {
                    assert(value_of(l.state.builder.snapped, q) == value_of(
                        w.state.builder.snapped,
                        q,
                    ));
                }
            }
        },
    }
}

/// Soundness speaks of the mapping and of the snapshots alone.
proof fn lemma_sound_alike(
    db: StructTable,
    shape: Shape,
    a: BuilderView,
    b: BuilderView,
    env: Valuation,
)
    requires
        sound(db, shape, a, env),
        a.semantics == b.semantics,
        a.snapped == b.snapped,
    ensures
        sound(db, shape, b, env),
        same_everywhere(db, a, b, env),
{
    assert forall|q: MemberPath| #[trigger] snapshot_good(db, b, env, q) by {
        assert(snapshot_good(db, a, env, q));
    }
}

/// The contents of an expression are the same where those of every path are.
proof fn lemma_expr_contents_alike(
    db: StructTable,
    before: BuilderView,
    after: BuilderView,
    env: Valuation,
    expr: LoweredExpr,
)
    requires
        same_everywhere(db, before, after, env),
    ensures
        expr_contents(db, after.semantics, env, expr) == expr_contents(
            db,
            before.semantics,
            env,
            expr,
        ),
    decreases expr,
{
    match expr {
        LoweredExpr::AtVariable(_) => {},
        LoweredExpr::Tuple { exprs, .. } => {
            lemma_exprs_contents_alike(db, before, after, env, exprs@);
        },
        LoweredExpr::MemberPath(path, _) => {
            assert(contents_at(db, after.semantics, env, path.path()) == contents_at(
                db,
                before.semantics,
                env,
                path.path(),
            ));
        },
        LoweredExpr::Snapshot { expr: inner, .. } => {
            lemma_expr_contents_alike(db, before, after, env, *inner);
        },
    }
}

proof fn lemma_exprs_contents_alike(
    db: StructTable,
    before: BuilderView,
    after: BuilderView,
    env: Valuation,
    exprs: Seq<LoweredExpr>,
)
    requires
        same_everywhere(db, before, after, env),
    ensures
        exprs_contents(db, after.semantics, env, exprs) == exprs_contents(
            db,
            before.semantics,
            env,
            exprs,
        ),
    decreases exprs,
{
    if exprs.len() > 0 {
        lemma_exprs_contents_alike(db, before, after, env, exprs.drop_last());
        lemma_expr_contents_alike(db, before, after, env, exprs[exprs.len() - 1]);
    }
}

/// The variable that the value of an expression is put into has the contents of the expression.
/// No path changes its contents, and no snapshot goes bad.
pub proof fn law_lower_contents(
    db: StructTable,
    shape: Shape,
    before: State,
    expr: LoweredExpr,
    env: Valuation,
)
    requires
        sound(db, shape, before.builder, env),
        expr_fits(db, shape, expr),
        lower_expr(db, before, expr).ok,
        all_hold(lower_expr(db, before, expr).state.builder.statements, env),
    ensures
        ({
            let l = lower_expr(db, before, expr);
            &&& env(l.value.var_id) == expr_contents(db, before.builder.semantics, env, expr)
            &&& sound(db, shape, l.state.builder, env)
            &&& same_everywhere(db, before.builder, l.state.builder, env)
        }),
    decreases expr,
{
    let after = lower_expr(db, before, expr);
    match expr {
        LoweredExpr::AtVariable(_) => {},
        LoweredExpr::Tuple { exprs, location } => {
            let l = lower_exprs(db, before, exprs@);
            let e = l.state.emitted();
            assert(after.state.builder.statements == e.statements.push(
                StatementView::StructConstruct { inputs: l.value, output: fresh(e, 0) },
            ));
            lemma_holds_before(e.statements, after.state.builder.statements, env);
            assert(holds(after.state.builder.statements[e.statements.len() as int], env));
            law_lower_all_contents(db, shape, before, exprs@, env);
            lemma_sound_alike(db, shape, l.state.builder, after.state.builder, env);
        },
        LoweredExpr::MemberPath(path, _) => {
            let at = location_of(path.spec_stable_ptr());
            lemma_read_sound(db, shape, before, path.path(), at, env);
            law_get_contents(db, shape, before, path.path(), at, env, path.path());
        },
        LoweredExpr::Snapshot { expr: inner, location } => match *inner {
            LoweredExpr::MemberPath(path, _) => {
                assert(expr_fits(db, shape, *inner));
                lemma_snapshot_path_contents(db, shape, before, path, location, env);
                assert(expr_contents(db, before.builder.semantics, env, *inner) == contents_at(
                    db,
                    before.builder.semantics,
                    env,
                    path.path(),
                ));
            },
            _ => {
                let l = lower_expr(db, before, *inner);
                let e = l.state.emitted();
                assert(after.state.builder.statements == e.statements.push(
                    StatementView::Snapshot {
                        input: l.value,
                        output_original: fresh(e, 0),
                        output_snapshot: fresh(e, 1),
                    },
                ));
                lemma_holds_before(e.statements, after.state.builder.statements, env);
                assert(holds(after.state.builder.statements[e.statements.len() as int], env));
                law_lower_contents(db, shape, before, *inner, env);
                lemma_sound_alike(db, shape, l.state.builder, after.state.builder, env);
            },
        },
    }
}

/// The variables that the values of expressions are put into have the contents of the expressions.
/// No path changes its contents, and no snapshot goes bad.
pub proof fn law_lower_all_contents(
    db: StructTable,
    shape: Shape,
    before: State,
    exprs: Seq<LoweredExpr>,
    env: Valuation,
)
    requires
        sound(db, shape, before.builder, env),
        exprs_fit(db, shape, exprs),
        lower_exprs(db, before, exprs).ok,
        all_hold(lower_exprs(db, before, exprs).state.builder.statements, env),
    ensures
        ({
            let l = lower_exprs(db, before, exprs);
            &&& l.value.map_values(|usage: VarUsage| env(usage.var_id)) == exprs_contents(
                db,
                before.builder.semantics,
                env,
                exprs,
            )
            &&& sound(db, shape, l.state.builder, env)
            &&& same_everywhere(db, before.builder, l.state.builder, env)
        }),
    decreases exprs,
{
    let after = lower_exprs(db, before, exprs);
    let contents = after.value.map_values(|usage: VarUsage| env(usage.var_id));
    if exprs.len() > 0 {
        let first = lower_exprs(db, before, exprs.drop_last());
        let expr = exprs[exprs.len() - 1];
        let last = lower_expr(db, first.state, expr);
        law_lower_goes_on(db, first.state, expr);
        lemma_holds_before(
            first.state.builder.statements,
            after.state.builder.statements,
            env,
        );
        law_lower_all_contents(db, shape, before, exprs.drop_last(), env);
        law_lower_contents(db, shape, first.state, expr, env);
        lemma_expr_contents_alike(db, before.builder, first.state.builder, env, expr);
        assert(contents =~= first.value.map_values(|usage: VarUsage| env(usage.var_id)).push(
            env(last.value.var_id),
        ));
        assert forall|q: MemberPath| #[trigger]
            contents_at(db, after.state.builder.semantics, env, q) == contents_at(
                db,
                before.builder.semantics,
                env,
                q,
            ) by {
            assert(contents_at(db, after.state.builder.semantics, env, q) == contents_at(
                db,
                first.state.builder.semantics,
                env,
                q,
            ));
        }
    } else {
        assert(contents =~= Seq::<Contents>::empty());
    }
}

// Closures.

/// Whether each path stands for its expression.
pub open spec fn keyed(exprs: Seq<(MemberPath, ExprVarMemberPath)>) -> bool {
    forall|i: int| 0 <= i < exprs.len() ==> (#[trigger] exprs[i]).0 == exprs[i].1.path()
}

/// Whether the parts of a usage are maps by path, and the paths that a closure changes are among
/// those that it uses.
pub open spec fn usage_consistent(
    usage: Seq<(MemberPath, ExprVarMemberPath)>,
    changes: Seq<(MemberPath, ExprVarMemberPath)>,
    snap_usage: Seq<(MemberPath, ExprVarMemberPath)>,
) -> bool {
    &&& keyed(usage)
    &&& keyed(changes)
    &&& unique_keys(usage)
    &&& unique_keys(snap_usage)
    &&& forall|i: int| 0 <= i < changes.len() ==> has_key(usage, (#[trigger] changes[i]).0)
}

/// The typed paths of a consistent usage are a map by path.
proof fn lemma_usage_consistent(
    usage: Seq<(MemberPath, ExprVarMemberPath)>,
    changes: Seq<(MemberPath, ExprVarMemberPath)>,
    snap_usage: Seq<(MemberPath, ExprVarMemberPath)>,
)
    requires
        usage_consistent(usage, changes, snap_usage),
    ensures
        unique_keys(typed_paths(usage)),
        forall|i: int|
            0 <= i < changes.len() ==> has_key(
                typed_paths(usage),
                (#[trigger] typed_paths(changes)[i]).0,
            ),
{
    let typed = typed_paths(usage);
    assert forall|i: int, j: int| 0 <= i < j < typed.len() implies (#[trigger] typed[i]).0 != (
    #[trigger] typed[j]).0 by {
        assert(usage[i].0 != usage[j].0);
    }
    assert forall|i: int| 0 <= i < changes.len() implies has_key(
        typed,
        (#[trigger] typed_paths(changes)[i]).0,
    ) by {
        assert(has_key(usage, changes[i].0));
        lemma_position(usage, changes[i].0);
        let k = position(usage, changes[i].0).unwrap();
        assert(typed[k].0 == changes[i].0);
        lemma_position(typed, changes[i].0);
    }
}

/// A closure info speaks of as many values as the closure captured: one for each path that is used,
/// and one for each that is used as a snapshot.
pub proof fn law_closure_info_is_complete(
    db: StructTable,
    before: State,
    usage: Seq<(MemberPath, ExprVarMemberPath)>,
    changes: Seq<(MemberPath, ExprVarMemberPath)>,
    snap_usage: Seq<(MemberPath, ExprVarMemberPath)>,
    ty: Type,
    location: LocationId,
)
    requires
        usage_consistent(usage, changes, snap_usage),
    ensures
        ({
            let c = capture(db, before, usage, changes, snap_usage, ty, location).value;
            let inputs = lower_exprs(
                db,
                before,
                captured_exprs(usage, snap_usage, location),
            ).value;
            &&& c.members.len() == usage.len()
            &&& c.snapshots.len() == snap_usage.len()
            &&& c.members.len() + c.snapshots.len() == inputs.len()
        }),
{
    let exprs = captured_exprs(usage, snap_usage, location);
    let l = lower_exprs(db, before, exprs);
    let types = usage_types(l.state.variables, l.value);
    lemma_lower_all_len(db, before, exprs);
    lemma_usage_consistent(usage, changes, snap_usage);
    lemma_collected_more(typed_paths(usage), typed_paths(changes));
    let snapshots = typed_snapshots(snap_usage, types, usage.len());
    assert(snapshots.len() == snap_usage.len());
    assert(unique_keys(snapshots)) by {
        assert forall|i: int, j: int| 0 <= i < j < snapshots.len() implies (
        #[trigger] snapshots[i]).0 != (#[trigger] snapshots[j]).0 by {
            assert(snap_usage[i].0 != snap_usage[j].0);
        }
    }
    lemma_collected_distinct(snapshots);
}

proof fn lemma_lower_all_len(db: StructTable, before: State, exprs: Seq<LoweredExpr>)
    ensures
        lower_exprs(db, before, exprs).value.len() == exprs.len(),
    decreases exprs.len(),
{
    if exprs.len() > 0 {
        lemma_lower_all_len(db, before, exprs.drop_last());
    }
}

/// Pairs whose keys are already there do not add any.
proof fn lemma_collected_more<K, V>(pairs: Seq<(K, V)>, more: Seq<(K, V)>)
    requires
        unique_keys(pairs),
        forall|i: int| 0 <= i < more.len() ==> has_key(pairs, (#[trigger] more[i]).0),
    ensures
        collected(pairs + more).len() == pairs.len(),
        forall|key: K| has_key(pairs, key) ==> #[trigger] has_key(collected(pairs + more), key),
    decreases more.len(),
{
    if more.len() > 0 {
        let rest = more.drop_last();
        assert forall|i: int| 0 <= i < rest.len() implies has_key(
            pairs,
            (#[trigger] rest[i]).0,
        ) by {
            assert(rest[i] == more[i]);
        }
        lemma_collected_more(pairs, rest);
        assert((pairs + more).drop_last() =~= pairs + rest);
        assert((pairs + more).last() == more.last());
        assert(has_key(pairs, more[more.len() - 1].0));
        let before = collected(pairs + rest);
        assert(has_key(before, more.last().0));
        lemma_position(before, more.last().0);
        assert(collected(pairs + more) == inserted(before, more.last().0, more.last().1));
        lemma_inserted(before, more.last().0, more.last().1);
        let after = collected(pairs + more);
        assert forall|key: K| has_key(pairs, key) implies #[trigger] has_key(after, key) by {
            assert(has_key(before, key));
            if key != more.last().0 {
                assert(value_of(after, key) == value_of(before, key));
            }
        }
    } else {
        assert(pairs + more =~= pairs);
        lemma_collected_distinct(pairs);
    }
}

/// What a closure captured is given back when it is taken apart: in every valuation in which the
/// statements hold, the variables that `destructure_closure` gives have the contents that the paths
/// had when `capture` was called, those that are used first, then those that are used as snapshots.
pub proof fn law_closure_gives_back(
    db: StructTable,
    shape: Shape,
    before: State,
    usage: Seq<(MemberPath, ExprVarMemberPath)>,
    changes: Seq<(MemberPath, ExprVarMemberPath)>,
    snap_usage: Seq<(MemberPath, ExprVarMemberPath)>,
    ty: Type,
    location: LocationId,
    later: Emitted,
    later_location: LocationId,
    env: Valuation,
    i: int,
)
    requires
        sound(db, shape, before.builder, env),
        usage_consistent(usage, changes, snap_usage),
        exprs_fit(db, shape, captured_exprs(usage, snap_usage, location)),
        capture(db, before, usage, changes, snap_usage, ty, location).ok,
        all_hold(
            capture(
                db,
                before,
                usage,
                changes,
                snap_usage,
                ty,
                location,
            ).state.builder.statements,
            env,
        ),
        ({
            let c = capture(db, before, usage, changes, snap_usage, ty, location).value;
            all_hold(
                deconstructed(
                    later,
                    entry_types(c.members) + entry_types(c.snapshots),
                    c.closure.var_id,
                    later_location,
                ).statements,
                env,
            )
        }),
        0 <= i < usage.len() + snap_usage.len(),
    ensures
        env(fresh(later, i)) == contents_at(
            db,
            before.builder.semantics,
            env,
            captured_path(usage, snap_usage, i),
        ),
{
    let exprs = captured_exprs(usage, snap_usage, location);
    let c = capture(db, before, usage, changes, snap_usage, ty, location);
    let l = lower_exprs(db, before, exprs);
    let e = l.state.emitted();
    law_closure_info_is_complete(db, before, usage, changes, snap_usage, ty, location);
    let n = usage.len() + snap_usage.len();
    let types = entry_types(c.value.members) + entry_types(c.value.snapshots);
    assert(types.len() == n);

    assert(c.state.builder.statements == e.statements.push(
        StatementView::StructConstruct { inputs: l.value, output: fresh(e, 0) },
    ));
    lemma_holds_before(e.statements, c.state.builder.statements, env);
    assert(holds(c.state.builder.statements[e.statements.len() as int], env));
    law_lower_all_contents(db, shape, before, exprs, env);
    lemma_exprs_contents_index(db, before.builder.semantics, env, exprs, i);

    let taken = deconstructed(later, types, c.value.closure.var_id, later_location);
    let outputs = fresh_ids(later, n);
    assert(taken.statements[later.statements.len() as int]
        == StatementView::StructDestructure {
        input: VarUsage { var_id: c.value.closure.var_id, location: later_location },
        outputs,
    });
    assert(holds(taken.statements[later.statements.len() as int], env));
    assert(outputs.map_values(|var: VariableId| env(var))[i] == env(outputs[i]));
    if i < usage.len() {
        assert(exprs[i] == LoweredExpr::MemberPath(usage[i].1, location));
    } else {
        let inner = LoweredExpr::MemberPath(snap_usage[i - usage.len()].1, location);
        assert(exprs[i] == (LoweredExpr::Snapshot { expr: Box::new(inner), location }));
        assert(expr_contents(db, before.builder.semantics, env, inner) == contents_at(
            db,
            before.builder.semantics,
            env,
            captured_path(usage, snap_usage, i),
        ));
    }
}

/// Whether the variables that a closure captures have the types of their expressions, and the
/// expressions for one path have one type.
pub open spec fn usage_typed(
    usage: Seq<(MemberPath, ExprVarMemberPath)>,
    changes: Seq<(MemberPath, ExprVarMemberPath)>,
    input_types: Seq<Type>,
) -> bool {
    &&& forall|i: int|
        0 <= i < usage.len() ==> (#[trigger] usage[i]).1.spec_ty() == input_types[i]
    &&& forall|i: int, j: int|
        0 <= i < usage.len() && 0 <= j < changes.len() && (#[trigger] usage[i]).0 == (
        #[trigger] changes[j]).0 ==> usage[i].1.spec_ty() == changes[j].1.spec_ty()
}

/// The variables that `destructure_closure` gives have the types of those that `capture` put into
/// the closure, in the same order. They are the types that the type of the closure names.
pub proof fn law_closure_gives_back_types(
    db: StructTable,
    before: State,
    usage: Seq<(MemberPath, ExprVarMemberPath)>,
    changes: Seq<(MemberPath, ExprVarMemberPath)>,
    snap_usage: Seq<(MemberPath, ExprVarMemberPath)>,
    ty: Type,
    location: LocationId,
    later: Emitted,
    later_location: LocationId,
    i: int,
)
    requires
        usage_consistent(usage, changes, snap_usage),
        capture(db, before, usage, changes, snap_usage, ty, location).ok,
        ({
            let l = lower_exprs(db, before, captured_exprs(usage, snap_usage, location));
            usage_typed(usage, changes, usage_types(l.state.variables, l.value))
        }),
        0 <= i < usage.len() + snap_usage.len(),
    ensures
        ({
            let l = lower_exprs(db, before, captured_exprs(usage, snap_usage, location));
            let c = capture(db, before, usage, changes, snap_usage, ty, location).value;
            let types = entry_types(c.members) + entry_types(c.snapshots);
            let taken = deconstructed(later, types, c.closure.var_id, later_location);
            &&& types == usage_types(l.state.variables, l.value)
            &&& ty matches Type::Closure(closure) && closure.captured_types == type_list(types)
            &&& taken.variables[later.variables.len() + i].ty
                == l.state.variables[l.value[i].var_id.0 as int].ty
        }),
{
    let exprs = captured_exprs(usage, snap_usage, location);
    let l = lower_exprs(db, before, exprs);
    let input_types = usage_types(l.state.variables, l.value);
    let c = capture(db, before, usage, changes, snap_usage, ty, location).value;
    lemma_lower_all_len(db, before, exprs);
    lemma_usage_consistent(usage, changes, snap_usage);
    law_closure_info_is_complete(db, before, usage, changes, snap_usage, ty, location);
    let typed = typed_paths(usage);
    let more = typed_paths(changes);
    assert forall|j: int| 0 <= j < more.len() implies value_of(typed, (#[trigger] more[j]).0)
        == Some(more[j].1) by {
        lemma_position(typed, more[j].0);
        let k = position(typed, more[j].0).unwrap();
        assert(usage[k].0 == changes[j].0);
    }
    lemma_collected_same(typed, more);
    let snapshots = typed_snapshots(snap_usage, input_types, usage.len());
    assert(unique_keys(snapshots)) by {
        assert forall|i: int, j: int| 0 <= i < j < snapshots.len() implies (
        #[trigger] snapshots[i]).0 != (#[trigger] snapshots[j]).0 by {
            assert(snap_usage[i].0 != snap_usage[j].0);
        }
    }
    lemma_collected_distinct(snapshots);
    let types = entry_types(c.members) + entry_types(c.snapshots);
    assert(types =~= input_types) by {
        assert forall|k: int| 0 <= k < types.len() implies types[k] == input_types[k] by {
            if k < usage.len() {
                assert(c.members[k].1 == usage[k].1.spec_ty());
            } else {
                assert(c.snapshots[k - usage.len()].1 == input_types[k]);
            }
        }
    }
}

/// Pairs that are already there change nothing.
proof fn lemma_collected_same<K, V>(pairs: Seq<(K, V)>, more: Seq<(K, V)>)
    requires
        unique_keys(pairs),
        forall|i: int|
            0 <= i < more.len() ==> value_of(pairs, (#[trigger] more[i]).0) == Some(more[i].1),
    ensures
        collected(pairs + more) == pairs,
    decreases more.len(),
{
    if more.len() > 0 {
        let rest = more.drop_last();
        assert forall|i: int| 0 <= i < rest.len() implies value_of(
            pairs,
            (#[trigger] rest[i]).0,
        ) == Some(rest[i].1) by {
            assert(rest[i] == more[i]);
        }
        lemma_collected_same(pairs, rest);
        assert((pairs + more).drop_last() =~= pairs + rest);
        assert((pairs + more).last() == more[more.len() - 1]);
        lemma_position(pairs, more.last().0);
        assert(value_of(pairs, more[more.len() - 1].0) == Some(more[more.len() - 1].1));
        let k = position(pairs, more.last().0).unwrap();
        assert(pairs.update(k, more.last()) =~= pairs);
    } else {
        assert(pairs + more =~= pairs);
        lemma_collected_distinct(pairs);
    }
}

/// The types of entries, in their order.
pub open spec fn entry_types(entries: Seq<(MemberPath, Type)>) -> Seq<Type> {
    entries.map_values(|entry: (MemberPath, Type)| entry.1)
}

/// The path of the `i`-th value that a closure captures.
pub open spec fn captured_path(
    usage: Seq<(MemberPath, ExprVarMemberPath)>,
    snap_usage: Seq<(MemberPath, ExprVarMemberPath)>,
    i: int,
) -> MemberPath {
    if i < usage.len() {
        usage[i].1.path()
    } else {
        snap_usage[i - usage.len()].1.path()
    }
}

proof fn lemma_exprs_contents_index(
    db: StructTable,
    entries: Seq<(MemberPath, Value)>,
    env: Valuation,
    exprs: Seq<LoweredExpr>,
    i: int,
)
    requires
        0 <= i < exprs.len(),
    ensures
        exprs_contents(db, entries, env, exprs).len() == exprs.len(),
        exprs_contents(db, entries, env, exprs)[i] == expr_contents(db, entries, env, exprs[i]),
    decreases exprs.len(),
{
    if exprs.len() == 1 {
        assert(exprs_contents(db, entries, env, exprs.drop_last()).len() == 0);
    } else if i < exprs.len() - 1 {
        lemma_exprs_contents_index(db, entries, env, exprs.drop_last(), i);
    } else {
        lemma_exprs_contents_index(db, entries, env, exprs.drop_last(), 0);
    }
}

/// The last pair with a key is what the key leads to.
proof fn lemma_collected_last<K, V>(pairs: Seq<(K, V)>, k: int)
    requires
        0 <= k < pairs.len(),
        forall|j: int| k < j < pairs.len() ==> (#[trigger] pairs[j]).0 != pairs[k].0,
    ensures
        value_of(collected(pairs), pairs[k].0) == Some(pairs[k].1),
    decreases pairs.len(),
{
    let rest = pairs.drop_last();
    let (last, value) = pairs.last();
    lemma_inserted(collected(rest), last, value);
    if k < pairs.len() - 1 {
        assert forall|j: int| k < j < rest.len() implies (#[trigger] rest[j]).0 != rest[k].0 by {
            assert(rest[j] == pairs[j]);
        }
        lemma_collected_last(rest, k);
        assert(pairs[pairs.len() - 1].0 != pairs[k].0);
        assert(value_of(collected(pairs), pairs[k].0) == value_of(collected(rest), pairs[k].0));
    }
}

/// A key that no pair has leads to nothing.
proof fn lemma_collected_none<K, V>(pairs: Seq<(K, V)>, key: K)
    requires
        forall|j: int| 0 <= j < pairs.len() ==> (#[trigger] pairs[j]).0 != key,
    ensures
        value_of(collected(pairs), key) is None,
    decreases pairs.len(),
{
    if pairs.len() > 0 {
        let rest = pairs.drop_last();
        let (last, value) = pairs.last();
        assert forall|j: int| 0 <= j < rest.len() implies (#[trigger] rest[j]).0 != key by {
            assert(rest[j] == pairs[j]);
        }
        lemma_collected_none(rest, key);
        assert(pairs[pairs.len() - 1].0 != key);
        lemma_inserted(collected(rest), last, value);
        assert(value_of(collected(pairs), key) == value_of(collected(rest), key));
    }
}

/// The members of a closure info are the paths that the closure uses or changes, each with the type
/// of its expression.
pub proof fn law_closure_members(
    db: StructTable,
    before: State,
    usage: Seq<(MemberPath, ExprVarMemberPath)>,
    changes: Seq<(MemberPath, ExprVarMemberPath)>,
    snap_usage: Seq<(MemberPath, ExprVarMemberPath)>,
    ty: Type,
    location: LocationId,
    path: MemberPath,
)
    requires
        usage_consistent(usage, changes, snap_usage),
        unique_keys(changes),
    ensures
        ({
            let members = capture(
                db,
                before,
                usage,
                changes,
                snap_usage,
                ty,
                location,
            ).value.members;
            &&& has_key(members, path) == has_key(usage, path)
            &&& value_of(changes, path) matches Some(expr) ==> value_of(members, path) == Some(
                expr.spec_ty(),
            )
            &&& !has_key(changes, path) ==> (value_of(usage, path) matches Some(expr)
                ==> value_of(members, path) == Some(expr.spec_ty()))
        }),
{
    let typed = typed_paths(usage);
    let more = typed_paths(changes);
    let pairs = typed + more;
    lemma_position(usage, path);
    lemma_position(changes, path);
    assert forall|k: int| 0 <= k < pairs.len() implies (#[trigger] pairs[k]) == (if k
        < usage.len() {
        (usage[k].0, usage[k].1.spec_ty())
    } else {
        (changes[k - usage.len()].0, changes[k - usage.len()].1.spec_ty())
    }) by {
        if k < usage.len() {
            assert(usage[k].0 == usage[k].1.path());
        } else {
            assert(changes[k - usage.len()].0 == changes[k - usage.len()].1.path());
        }
    }
    if let Some(j) = position(changes, path) {
        let k = usage.len() + j;
        assert(pairs[k].0 == path);
        assert forall|m: int| k < m < pairs.len() implies (#[trigger] pairs[m]).0
            != pairs[k].0 by {
            assert(changes[j].0 != changes[m - usage.len()].0);
        }
        lemma_collected_last(pairs, k);
        assert(has_key(usage, changes[j].0));
    } else if let Some(i) = position(usage, path) {
        assert(pairs[i].0 == path);
        assert forall|m: int| i < m < pairs.len() implies (#[trigger] pairs[m]).0
            != pairs[i].0 by {
            if m < usage.len() {
                assert(usage[i].0 != usage[m].0);
            } else {
                assert(changes[m - usage.len()].0 != path);
            }
        }
        lemma_collected_last(pairs, i);
    } else {
        assert forall|m: int| 0 <= m < pairs.len() implies (#[trigger] pairs[m]).0 != path by {
            if m < usage.len() {
                assert(usage[m].0 != path);
            } else {
                assert(changes[m - usage.len()].0 != path);
            }
        }
        lemma_collected_none(pairs, path);
    }
}

/// Whether an expression is one for the given path.
pub open spec fn expression_for(
    exprs: Seq<(MemberPath, ExprVarMemberPath)>,
    path: MemberPath,
) -> bool {
    exists|k: int| 0 <= k < exprs.len() && (#[trigger] exprs[k]).1.path() == path
}

/// The members of a closure info are the paths of the expressions that the closure uses or changes,
/// whatever the expressions are filed under.
pub proof fn law_closure_member_paths(
    db: StructTable,
    before: State,
    usage: Seq<(MemberPath, ExprVarMemberPath)>,
    changes: Seq<(MemberPath, ExprVarMemberPath)>,
    snap_usage: Seq<(MemberPath, ExprVarMemberPath)>,
    ty: Type,
    location: LocationId,
    path: MemberPath,
)
    ensures
        has_key(
            capture(db, before, usage, changes, snap_usage, ty, location).value.members,
            path,
        ) == (expression_for(usage, path) || expression_for(changes, path)),
{
    let pairs = typed_paths(usage) + typed_paths(changes);
    lemma_position(collected(pairs), path);
    if expression_for(usage, path) {
        let k = choose|k: int| 0 <= k < usage.len() && (#[trigger] usage[k]).1.path() == path;
        assert(pairs[k].0 == path);
        lemma_collected_some(pairs, k);
    } else if expression_for(changes, path) {
        let k = choose|k: int| 0 <= k < changes.len() && (#[trigger] changes[k]).1.path() == path;
        assert(pairs[usage.len() + k].0 == path);
        lemma_collected_some(pairs, usage.len() + k);
    } else {
        assert forall|m: int| 0 <= m < pairs.len() implies (#[trigger] pairs[m]).0 != path by {
            if m < usage.len() {
                assert(usage[m].1.path() != path);
            } else {
                assert(changes[m - usage.len()].1.path() != path);
            }
        }
        lemma_collected_none(pairs, path);
    }
}

/// A key that a pair has leads to something.
proof fn lemma_collected_some<K, V>(pairs: Seq<(K, V)>, k: int)
    requires
        0 <= k < pairs.len(),
    ensures
        value_of(collected(pairs), pairs[k].0) is Some,
    decreases pairs.len() - k,
{
    if exists|j: int| k < j < pairs.len() && (#[trigger] pairs[j]).0 == pairs[k].0 {
        let j = choose|j: int| k < j < pairs.len() && (#[trigger] pairs[j]).0 == pairs[k].0;
        lemma_collected_some(pairs, j);
    } else {
        lemma_collected_last(pairs, k);
    }
}

/// The snapshots of a closure info are the paths that the closure uses as snapshots, in their order,
/// each with the type of the variable that the closure captured for it.
pub proof fn law_closure_snapshots(
    db: StructTable,
    before: State,
    usage: Seq<(MemberPath, ExprVarMemberPath)>,
    changes: Seq<(MemberPath, ExprVarMemberPath)>,
    snap_usage: Seq<(MemberPath, ExprVarMemberPath)>,
    ty: Type,
    location: LocationId,
    k: int,
)
    requires
        usage_consistent(usage, changes, snap_usage),
        capture(db, before, usage, changes, snap_usage, ty, location).ok,
        0 <= k < snap_usage.len(),
    ensures
        ({
            let c = capture(db, before, usage, changes, snap_usage, ty, location);
            &&& c.value.snapshots.len() == snap_usage.len()
            &&& c.value.snapshots[k].0 == snap_usage[k].0
            &&& c.state.builder.statements.last() matches StatementView::StructConstruct {
                inputs,
                ..
            } && {
                &&& inputs.len() == usage.len() + snap_usage.len()
                &&& c.value.snapshots[k].1 == c.state.variables[inputs[usage.len()
                    + k].var_id.0 as int].ty
            }
        }),
{
    let exprs = captured_exprs(usage, snap_usage, location);
    let l = lower_exprs(db, before, exprs);
    let types = usage_types(l.state.variables, l.value);
    let c = capture(db, before, usage, changes, snap_usage, ty, location);
    law_closure_info_is_complete(db, before, usage, changes, snap_usage, ty, location);
    let snapshots = typed_snapshots(snap_usage, types, usage.len());
    assert(unique_keys(snapshots)) by {
        assert forall|i: int, j: int| 0 <= i < j < snapshots.len() implies (
        #[trigger] snapshots[i]).0 != (#[trigger] snapshots[j]).0 by {
            assert(snap_usage[i].0 != snap_usage[j].0);
        }
    }
    lemma_collected_distinct(snapshots);
    assert(c.state.builder.statements.last() == (StatementView::StructConstruct {
        inputs: l.value,
        output: fresh(l.state.emitted(), 0),
    }));
    let var = l.value[usage.len() + k].var_id;
    assert(var.0 < l.state.variables.len());
    assert(c.state.variables[var.0 as int] == l.state.variables[var.0 as int]);
    assert(snapshots[k].1 == types[usage.len() + k]);
}

/// The types of what a closure captured are those of its members, in their order, and behind them
/// those of its snapshots.
pub proof fn law_captured_types(closure_info: ClosureInfo, k: int)
    requires
        0 <= k < captured_types(closure_info).len(),
    ensures
        ({
            let members = path_types(closure_info.members);
            let snapshots = path_types(closure_info.snapshots);
            &&& captured_types(closure_info).len() == members.len() + snapshots.len()
            &&& k < members.len() ==> captured_types(closure_info)[k] == members[k].1
            &&& k >= members.len() ==> captured_types(closure_info)[k] == snapshots[k
                - members.len()].1
        }),
{
}

/// The closure of an expression captures the used paths, then those used as snapshots, stands where
/// the expression stands, and has the type of the expression. Its info speaks of the used paths, and
/// of those used as snapshots.
pub proof fn law_capture_of_expression(
    builder: BlockBuilder,
    ctx: LoweringContext,
    usage: Usage,
    expr: ExprClosure,
    path: MemberPath,
)
    requires
        usage_consistent(
            path_exprs(usage.usage),
            path_exprs(usage.changes),
            path_exprs(usage.snap_usage),
        ),
        unique_keys(path_exprs(usage.changes)),
        capture_step(builder, ctx, usage, expr).ok,
        capture_step(builder, ctx, usage, expr).state.variables.len() <= usize::MAX,
    ensures
        ({
            let c = capture_step(builder, ctx, usage, expr);
            let var = c.value.closure.var_id;
            let used = path_exprs(usage.usage);
            let snaps = path_exprs(usage.snap_usage);
            &&& c.state.builder.statements.last() matches StatementView::StructConstruct {
                inputs,
                output,
            } && output == var && inputs.len() == used.len() + snaps.len()
            &&& c.value.closure.location == location_of(expr.stable_ptr)
            &&& var.0 < c.state.variables.len()
            &&& c.state.variables[var.0 as int] == (Variable {
                ty: expr.ty,
                location: location_of(expr.stable_ptr),
            })
            &&& has_key(c.value.members, path) == has_key(used, path)
            &&& has_key(c.value.snapshots, path) == has_key(snaps, path)
        }),
{
    let location = location_of(expr.stable_ptr);
    let used = path_exprs(usage.usage);
    let changes = path_exprs(usage.changes);
    let snaps = path_exprs(usage.snap_usage);
    let before = state(builder, ctx);
    let c = capture_step(builder, ctx, usage, expr);
    let l = lower_exprs(ctx.db, before, captured_exprs(used, snaps, location));
    let n = l.state.variables.len() as int;
    assert(c.state.variables.len() == n + 1);
    assert(c.state.variables[n].ty == expr.ty);
    law_closure_members(ctx.db, before, used, changes, snaps, expr.ty, location, path);
    law_closure_info_is_complete(ctx.db, before, used, changes, snaps, expr.ty, location);
    assert(c.state.builder.statements.last() == (StatementView::StructConstruct {
        inputs: l.value,
        output: fresh(l.state.emitted(), 0),
    }));
    lemma_position(c.value.snapshots, path);
    lemma_position(snaps, path);
    assert forall|k: int| 0 <= k < snaps.len() implies (#[trigger] c.value.snapshots[k]).0
        == snaps[k].0 by {
        law_closure_snapshots(ctx.db, before, used, changes, snaps, expr.ty, location, k);
    }
    if let Some(k) = position(snaps, path) {
        assert(c.value.snapshots[k].0 == path);
    }
    if let Some(k) = position(c.value.snapshots, path) {
        assert(snaps[k].0 == path);
    }
}

} // verus!
