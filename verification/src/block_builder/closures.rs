//! Capturing of variables by closures.
use cairo_lang_utils::ordered_hash_map::OrderedHashMap;
use vstd::prelude::*;

use crate::block_builder::{state, BlockBuilder};
use crate::context::{location_of, same_but_variables, LoweredExpr, LoweringContext};
use crate::generators::{fresh_ids, Snapshot, StructConstruct};
use crate::ids::{LocationId, StablePtrId, VariableId};
use crate::member_path::{ExprVarMemberPath, MemberPath};
use crate::objects::VarUsage;
use crate::ordered::{
    lemma_collected_unique, path_exprs, path_exprs_entries, path_types, path_types_from,
    path_types_len, unique_keys,
};
use crate::recomposer::deconstructed;
use crate::refs::{captured_types, ClosureInfo};
use crate::state::{
    capture, captured_exprs, lemma_lower_exprs_prefix, lower_expr, lower_exprs, typed_paths,
    typed_snapshots, usage_types, usages_exist, Captured, Outcome,
};
use crate::types::{Type, TypeList};

verus! {

/// The paths that an expression reads, changes and reads as snapshots, each with the expression in
/// which it occurs first.
#[derive(Debug)]
pub struct Usage {
    /// The paths that are read.
    pub usage: OrderedHashMap<MemberPath, ExprVarMemberPath>,
    /// The paths that are changed.
    pub changes: OrderedHashMap<MemberPath, ExprVarMemberPath>,
    /// The paths that are read as snapshots.
    pub snap_usage: OrderedHashMap<MemberPath, ExprVarMemberPath>,
}

/// The entries of a usage, in their order.
struct UsageEntries {
    usage: Vec<(MemberPath, ExprVarMemberPath)>,
    changes: Vec<(MemberPath, ExprVarMemberPath)>,
    snap_usage: Vec<(MemberPath, ExprVarMemberPath)>,
}

/// A closure expression.
#[derive(Debug)]
pub struct ExprClosure {
    pub stable_ptr: StablePtrId,
    pub ty: Type,
}

/// The step that builds a closure.
pub open spec fn capture_step(
    builder: BlockBuilder,
    ctx: LoweringContext,
    usage: Usage,
    expr: ExprClosure,
) -> Outcome<Captured> {
    capture(
        ctx.db,
        state(builder, ctx),
        path_exprs(usage.usage),
        path_exprs(usage.changes),
        path_exprs(usage.snap_usage),
        expr.ty,
        location_of(expr.stable_ptr),
    )
}

/// The expressions that a closure captures: values first, then snapshots.
fn capture_exprs(usage: &UsageEntries, location: LocationId) -> (res: Vec<LoweredExpr>)
    ensures
        res@ == captured_exprs(usage.usage@, usage.snap_usage@, location),
{
    let mut res: Vec<LoweredExpr> = Vec::new();
    let ghost all = captured_exprs(usage.usage@, usage.snap_usage@, location);
    let mut i: usize = 0;
    while i < usage.usage.len()
        invariant
            i <= usage.usage.len(),
            all == captured_exprs(usage.usage@, usage.snap_usage@, location),
            res@ == all.take(i as int),
        decreases usage.usage.len() - i,
    {
        res.push(LoweredExpr::MemberPath(usage.usage[i].1.clone(), location));
        i = i + 1;
        assert(res@ =~= all.take(i as int));
    }
    let mut j: usize = 0;
    while j < usage.snap_usage.len()
        invariant
            j <= usage.snap_usage.len(),
            all == captured_exprs(usage.usage@, usage.snap_usage@, location),
            res@ == all.take(usage.usage@.len() + j),
        decreases usage.snap_usage.len() - j,
    {
        res.push(
            LoweredExpr::Snapshot {
                expr: Box::new(LoweredExpr::MemberPath(usage.snap_usage[j].1.clone(), location)),
                location,
            },
        );
        j = j + 1;
        assert(res@ =~= all.take(usage.usage@.len() + j));
    }
    assert(all.take(usage.usage@.len() + j) =~= all);
    res
}

/// The types of the paths that a closure captures or changes.
fn capture_members(usage: &UsageEntries) -> (res: Vec<(MemberPath, Type)>)
    ensures
        res@ == typed_paths(usage.usage@) + typed_paths(usage.changes@),
{
    let mut res: Vec<(MemberPath, Type)> = Vec::new();
    let ghost all = typed_paths(usage.usage@) + typed_paths(usage.changes@);
    let mut i: usize = 0;
    while i < usage.usage.len()
        invariant
            i <= usage.usage.len(),
            all == typed_paths(usage.usage@) + typed_paths(usage.changes@),
            res@ == all.take(i as int),
        decreases usage.usage.len() - i,
    {
        res.push((usage.usage[i].1.member_path(), usage.usage[i].1.ty()));
        i = i + 1;
        assert(res@ =~= all.take(i as int));
    }
    let mut j: usize = 0;
    while j < usage.changes.len()
        invariant
            j <= usage.changes.len(),
            all == typed_paths(usage.usage@) + typed_paths(usage.changes@),
            res@ == all.take(usage.usage@.len() + j),
        decreases usage.changes.len() - j,
    {
        res.push((usage.changes[j].1.member_path(), usage.changes[j].1.ty()));
        j = j + 1;
        assert(res@ =~= all.take(usage.usage@.len() + j));
    }
    assert(all.take(usage.usage@.len() + j) =~= all);
    res
}

/// The types of the snapshots that a closure captures. Their inputs are those behind the first
/// `skipped`.
fn capture_snapshots(usage: &UsageEntries, input_types: &Vec<Type>, skipped: usize) -> (res: Vec<
    (MemberPath, Type),
>)
    ensures
        res@ == typed_snapshots(usage.snap_usage@, input_types@, skipped as nat),
{
    let mut res: Vec<(MemberPath, Type)> = Vec::new();
    let ghost all = typed_snapshots(usage.snap_usage@, input_types@, skipped as nat);
    let mut k: usize = 0;
    while skipped < input_types.len() && k < usage.snap_usage.len() && k < input_types.len()
        - skipped
        invariant
            k <= all.len(),
            all == typed_snapshots(usage.snap_usage@, input_types@, skipped as nat),
            res@ == all.take(k as int),
        decreases usage.snap_usage.len() - k,
    {
        res.push((usage.snap_usage[k].0.clone(), input_types[skipped + k].clone()));
        k = k + 1;
        assert(res@ =~= all.take(k as int));
    }
    assert(all.take(k as int) =~= all);
    res
}

/// The types of the variables of the usages.
fn types_of(ctx: &LoweringContext, usages: &Vec<VarUsage>) -> (res: Vec<Type>)
    requires
        usages_exist(ctx.variables@, usages@),
    ensures
        res@ == usage_types(ctx.variables@, usages@),
{
    let mut res: Vec<Type> = Vec::new();
    let mut i: usize = 0;
    while i < usages.len()
        invariant
            i <= usages.len(),
            usages_exist(ctx.variables@, usages@),
            res@ == usage_types(ctx.variables@, usages@.take(i as int)),
        decreases usages.len() - i,
    {
        assert(usages@[i as int].var_id.0 < ctx.variables@.len());
        res.push(ctx.variables[usages[i].var_id.0].ty.clone());
        i = i + 1;
        assert(res@ =~= usage_types(ctx.variables@, usages@.take(i as int)));
    }
    assert(usages@.take(i as int) =~= usages@);
    res
}

/// Puts the values of lowered expressions into variables, one after the other.
fn lower_all(exprs: &Vec<LoweredExpr>, ctx: &mut LoweringContext, builder: &mut BlockBuilder) -> (
    res: Vec<VarUsage>)
    requires
        lower_exprs(old(ctx).db, state(*old(builder), *old(ctx)), exprs@).ok,
    ensures
        ({
            let l = lower_exprs(old(ctx).db, state(*old(builder), *old(ctx)), exprs@);
            &&& res@ == l.value
            &&& state(*final(builder), *final(ctx)) == l.state
        }),
        same_but_variables(*old(ctx), *final(ctx)),
    decreases exprs, 0nat,
{
    let ghost before = state(*builder, *ctx);
    let mut res: Vec<VarUsage> = Vec::new();
    let mut i: usize = 0;
    while i < exprs.len()
        invariant
            i <= exprs.len(),
            before == state(*old(builder), *old(ctx)),
            lower_exprs(old(ctx).db, before, exprs@).ok,
            ({
                let l = lower_exprs(old(ctx).db, before, exprs@.take(i as int));
                &&& l.value == res@
                &&& l.state == state(*builder, *ctx)
            }),
            same_but_variables(*old(ctx), *ctx),
        decreases exprs.len() - i,
    {
        proof {
            lemma_lower_exprs_prefix(old(ctx).db, before, exprs@, i + 1);
            assert(exprs@.take(i + 1).drop_last() =~= exprs@.take(i as int));
        }
        let usage = exprs[i].as_var_usage(ctx, builder);
        res.push(usage);
        i = i + 1;
    }
    assert(exprs@.take(i as int) =~= exprs@);
    res
}

impl LoweredExpr {
    /// Puts the value of the expression into a variable.
    pub fn as_var_usage(&self, ctx: &mut LoweringContext, builder: &mut BlockBuilder) -> (res:
        VarUsage)
        requires
            lower_expr(old(ctx).db, state(*old(builder), *old(ctx)), *self).ok,
        ensures
            ({
                let l = lower_expr(old(ctx).db, state(*old(builder), *old(ctx)), *self);
                &&& res == l.value
                &&& state(*final(builder), *final(ctx)) == l.state
            }),
            same_but_variables(*old(ctx), *final(ctx)),
        decreases self, 1nat,
    {
        match self {
            LoweredExpr::AtVariable(usage) => *usage,
            LoweredExpr::Tuple { exprs, location } => {
                let inputs = lower_all(exprs, ctx, builder);
                let types = types_of(ctx, &inputs);
                let ty = Type::Tuple(TypeList::from_types(&types));
                StructConstruct { inputs, ty, location: *location }.add(
                    ctx,
                    &mut builder.statements,
                )
            },
            LoweredExpr::MemberPath(path, _) => builder.get_ref(ctx, path).unwrap(),
            LoweredExpr::Snapshot { expr, location } => match &**expr {
                LoweredExpr::MemberPath(path, _) => {
                    if let Some(usage) = builder.get_snap_ref(ctx, path) {
                        return VarUsage { var_id: usage.var_id, location: *location };
                    }
                    let input = builder.get_ref(ctx, path).unwrap();
                    let (original, snapshot) = Snapshot { input, location: *location }.add(
                        ctx,
                        &mut builder.statements,
                    );
                    builder.update_ref(ctx, path, original);
                    builder.update_snap_ref(path, snapshot);
                    VarUsage { var_id: snapshot, location: *location }
                },
                inner => {
                    let input = inner.as_var_usage(ctx, builder);
                    let (_, snapshot) = Snapshot { input, location: *location }.add(
                        ctx,
                        &mut builder.statements,
                    );
                    VarUsage { var_id: snapshot, location: *location }
                },
            },
        }
    }
}

impl BlockBuilder {
    /// Builds a closure from the paths that it uses.
    ///
    /// Returns the closure, and what it captured.
    pub fn capture(
        &mut self,
        ctx: &mut LoweringContext,
        usage: Usage,
        expr: &ExprClosure,
    ) -> (res: (VarUsage, ClosureInfo))
        requires
            capture_step(*old(self), *old(ctx), usage, *expr).ok,
        ensures
            ({
                let c = capture_step(*old(self), *old(ctx), usage, *expr);
                &&& res.0 == c.value.closure
                &&& path_types(res.1.members) == c.value.members
                &&& path_types(res.1.snapshots) == c.value.snapshots
                &&& state(*final(self), *final(ctx)) == c.state
            }),
            unique_keys(path_exprs(usage.usage)),
            unique_keys(path_exprs(usage.changes)),
            unique_keys(path_exprs(usage.snap_usage)),
            unique_keys(path_types(res.1.members)),
            unique_keys(path_types(res.1.snapshots)),
            same_but_variables(*old(ctx), *final(ctx)),
    {
        let location = ctx.get_location(expr.stable_ptr);
        let entries = UsageEntries {
            usage: path_exprs_entries(usage.usage),
            changes: path_exprs_entries(usage.changes),
            snap_usage: path_exprs_entries(usage.snap_usage),
        };
        let exprs = capture_exprs(&entries, location);
        let inputs = lower_all(&exprs, ctx, self);
        let input_types = types_of(ctx, &inputs);
        let members = path_types_from(capture_members(&entries));
        let snapshots = path_types_from(
            capture_snapshots(&entries, &input_types, path_types_len(&members)),
        );
        proof {
            lemma_collected_unique(typed_paths(entries.usage@) + typed_paths(entries.changes@));
            lemma_collected_unique(
                typed_snapshots(
                    entries.snap_usage@,
                    input_types@,
                    path_types(members).len(),
                ),
            );
        }
        let var_usage = StructConstruct { inputs, ty: expr.ty.clone(), location }.add(
            ctx,
            &mut self.statements,
        );
        (var_usage, ClosureInfo { members, snapshots })
    }

    /// Takes a closure apart. Its variable is used up, and what it captured is returned.
    pub fn destructure_closure(
        &mut self,
        ctx: &mut LoweringContext,
        location: LocationId,
        closure_var: VariableId,
        closure_info: &ClosureInfo,
    ) -> (res: Vec<VariableId>)
        requires
            closure_var.0 < old(ctx).variables@.len(),
        ensures
            res@ == fresh_ids(
                state(*old(self), *old(ctx)).emitted(),
                captured_types(*closure_info).len(),
            ),
            state(*final(self), *final(ctx)) == state(*old(self), *old(ctx)).emitting(
                deconstructed(
                    state(*old(self), *old(ctx)).emitted(),
                    captured_types(*closure_info),
                    closure_var,
                    location,
                ),
            ),
            same_but_variables(*old(ctx), *final(ctx)),
    {
        self.semantics.destructure_closure(
            ctx,
            &mut self.statements,
            location,
            closure_var,
            closure_info,
        )
    }
}

} // verus!
