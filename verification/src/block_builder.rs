//! Building of lowered blocks.
use cairo_lang_utils::ordered_hash_map::OrderedHashMap;
use cairo_lang_utils::ordered_hash_set::OrderedHashSet;
use vstd::prelude::*;

use crate::context::{
    find_member, location_of, same_but_variables, same_inputs, DiagnosticAdded, LoweringContext,
    LoweringDiagnostic, LoweringDiagnosticKind, Maybe, Member,
};
use crate::generators::{StatementsBuilder, StructMemberAccess};
use crate::ids::{BlockId, LocationId, VarId, VariableId};
use crate::member_path::{ExprVarMemberPath, MemberPath};
use crate::merge::{with_block, SealedView};
use crate::objects::{
    Block, BlockEnd, BlockEndView, BlockView, MatchInfo, Statement, VarUsage, Variable,
};
use crate::ordered::{
    path_set, path_set_clone, path_set_insert, path_set_new, path_vars, path_vars_clone,
    path_vars_get, path_vars_insert, path_vars_new, path_vars_swap_remove,
};
use crate::refs::SemanticLoweringMapping;
use crate::state::{
    child_builder, introduced, lemma_read_refs_prefix, read_ref, read_refs, read_snap, root_builder,
    sibling_builder, snapped, wrapped_member_types, write_ref, BuilderView, State,
};
use crate::types::{wrap_in_snapshots_of, Type};

pub mod closures;
pub mod debug;
pub mod join;
pub mod sealed;

pub use self::closures::{ExprClosure, Usage};
pub use self::join::merge_block_builders;
pub use self::sealed::{SealedBlockBuilder, SealedGotoCallsite, SemanticRemapping};

verus! {

/// A block builder: the state of the block that is being lowered.
#[derive(Debug)]
pub struct BlockBuilder {
    /// Where the semantic variables are.
    pub semantics: SemanticLoweringMapping,
    /// The semantic variables that are captured as snapshots in this block.
    pub snapped_semantics: OrderedHashMap<MemberPath, VariableId>,
    /// The semantic variables that are added or changed in this block.
    changed_member_paths: OrderedHashSet<MemberPath>,
    /// The statements of the block so far.
    pub statements: StatementsBuilder,
    /// The block to set when this builder is finalized.
    pub block_id: BlockId,
}

impl View for BlockBuilder {
    type V = BuilderView;

    closed spec fn view(&self) -> BuilderView {
        BuilderView {
            semantics: self.semantics@,
            snapped: path_vars(self.snapped_semantics),
            changed: path_set(self.changed_member_paths),
            statements: self.statements@,
            block_id: self.block_id,
        }
    }
}

impl Clone for BlockBuilder {
    fn clone(&self) -> (res: Self)
        ensures
            res@ == self@,
    {
        BlockBuilder {
            semantics: self.semantics.clone(),
            snapped_semantics: path_vars_clone(&self.snapped_semantics),
            changed_member_paths: path_set_clone(&self.changed_member_paths),
            statements: self.statements.clone(),
            block_id: self.block_id,
        }
    }
}

/// A builder and the variables of its function.
pub open spec fn state(builder: BlockBuilder, ctx: LoweringContext) -> State {
    State { builder: builder@, variables: ctx.variables@ }
}

impl BlockBuilder {
    /// Creates a builder for the root block of a function body.
    pub fn root(block_id: BlockId) -> (res: Self)
        ensures
            res@ == root_builder(block_id),
    {
        BlockBuilder {
            semantics: SemanticLoweringMapping::new(),
            snapped_semantics: path_vars_new(),
            changed_member_paths: path_set_new(),
            statements: StatementsBuilder::new(),
            block_id,
        }
    }

    /// Creates a builder for a subscope.
    pub fn child_block_builder(&self, block_id: BlockId) -> (res: BlockBuilder)
        ensures
            res@ == child_builder(self@, block_id),
    {
        BlockBuilder {
            semantics: self.semantics.clone(),
            snapped_semantics: path_vars_clone(&self.snapped_semantics),
            changed_member_paths: path_set_new(),
            statements: StatementsBuilder::new(),
            block_id,
        }
    }

    /// Creates a builder that goes on where this one ends. It serves when a block is split (after a
    /// match, say), to add a block to go to behind it.
    pub fn sibling_block_builder(&self, block_id: BlockId) -> (res: BlockBuilder)
        ensures
            res@ == sibling_builder(self@, block_id),
    {
        BlockBuilder {
            semantics: self.semantics.clone(),
            snapped_semantics: path_vars_clone(&self.snapped_semantics),
            changed_member_paths: path_set_clone(&self.changed_member_paths),
            statements: StatementsBuilder::new(),
            block_id,
        }
    }

    /// Binds a semantic variable to a lowered variable.
    pub fn put_semantic(&mut self, semantic_var_id: VarId, var: VariableId)
        ensures
            final(self)@ == introduced(old(self)@, MemberPath::Var(semantic_var_id), var),
    {
        self.semantics.introduce(MemberPath::Var(semantic_var_id), var);
        path_set_insert(&mut self.changed_member_paths, MemberPath::Var(semantic_var_id));
    }

    /// Writes a member path as it stands in the source.
    pub fn update_ref(
        &mut self,
        ctx: &mut LoweringContext,
        member_path: &ExprVarMemberPath,
        var: VariableId,
    )
        requires
            write_ref(
                old(ctx).db,
                state(*old(self), *old(ctx)),
                member_path.path(),
                var,
                location_of(member_path.spec_stable_ptr()),
            ).ok,
        ensures
            state(*final(self), *final(ctx)) == write_ref(
                old(ctx).db,
                state(*old(self), *old(ctx)),
                member_path.path(),
                var,
                location_of(member_path.spec_stable_ptr()),
            ).state,
            same_but_variables(*old(ctx), *final(ctx)),
    {
        let location = ctx.get_location(member_path.stable_ptr());
        self.update_ref_raw(ctx, member_path.member_path(), var, location);
    }

    /// Writes a member path. A snapshot of it is no longer good.
    pub fn update_ref_raw(
        &mut self,
        ctx: &mut LoweringContext,
        member_path: MemberPath,
        var: VariableId,
        location: LocationId,
    )
        requires
            write_ref(old(ctx).db, state(*old(self), *old(ctx)), member_path, var, location).ok,
        ensures
            state(*final(self), *final(ctx)) == write_ref(
                old(ctx).db,
                state(*old(self), *old(ctx)),
                member_path,
                var,
                location,
            ).state,
            same_but_variables(*old(ctx), *final(ctx)),
    {
        path_vars_swap_remove(&mut self.snapped_semantics, &member_path);
        self.semantics.update(ctx, &mut self.statements, &member_path, var, location);
        path_set_insert(&mut self.changed_member_paths, member_path);
    }

    /// Reads a member path as it stands in the source.
    pub fn get_ref(&mut self, ctx: &mut LoweringContext, member_path: &ExprVarMemberPath) -> (res:
        Option<VarUsage>)
        requires
            read_ref(
                old(ctx).db,
                state(*old(self), *old(ctx)),
                member_path.path(),
                location_of(member_path.spec_stable_ptr()),
            ).ok,
        ensures
            ({
                let r = read_ref(
                    old(ctx).db,
                    state(*old(self), *old(ctx)),
                    member_path.path(),
                    location_of(member_path.spec_stable_ptr()),
                );
                &&& res == r.value
                &&& state(*final(self), *final(ctx)) == r.state
            }),
            same_but_variables(*old(ctx), *final(ctx)),
    {
        let location = ctx.get_location(member_path.stable_ptr());
        self.get_ref_raw(ctx, &member_path.member_path(), location)
    }

    /// Reads a member path.
    pub fn get_ref_raw(
        &mut self,
        ctx: &mut LoweringContext,
        member_path: &MemberPath,
        location: LocationId,
    ) -> (res: Option<VarUsage>)
        requires
            read_ref(old(ctx).db, state(*old(self), *old(ctx)), *member_path, location).ok,
        ensures
            ({
                let r = read_ref(
                    old(ctx).db,
                    state(*old(self), *old(ctx)),
                    *member_path,
                    location,
                );
                &&& res == r.value
                &&& state(*final(self), *final(ctx)) == r.state
            }),
            same_but_variables(*old(ctx), *final(ctx)),
    {
        match self.semantics.get(ctx, &mut self.statements, member_path, location) {
            Some(var_id) => Some(VarUsage { var_id, location }),
            None => None,
        }
    }

    /// Records a snapshot of a member path.
    pub fn update_snap_ref(&mut self, member_path: &ExprVarMemberPath, var: VariableId)
        ensures
            final(self)@ == snapped(old(self)@, member_path.path(), var),
    {
        path_vars_insert(&mut self.snapped_semantics, member_path.member_path(), var);
    }

    /// Reads the snapshot of a member path, possibly by taking that of its parent apart.
    pub fn get_snap_ref(
        &mut self,
        ctx: &mut LoweringContext,
        member_path: &ExprVarMemberPath,
    ) -> (res: Option<VarUsage>)
        requires
            read_snap(old(ctx).db, state(*old(self), *old(ctx)), *member_path).ok,
        ensures
            ({
                let r = read_snap(old(ctx).db, state(*old(self), *old(ctx)), *member_path);
                &&& res == r.value
                &&& state(*final(self), *final(ctx)) == r.state
            }),
            same_but_variables(*old(ctx), *final(ctx)),
        decreases member_path,
    {
        let location = ctx.get_location(member_path.stable_ptr());
        if let Some(var_id) = path_vars_get(&self.snapped_semantics, &member_path.member_path()) {
            return Some(VarUsage { var_id, location });
        }
        match member_path {
            ExprVarMemberPath::Var(_) => None,
            ExprVarMemberPath::Member { parent, member_id, concrete_struct_id, .. } => {
                let parent_var = match self.get_snap_ref(ctx, &**parent) {
                    Some(parent_var) => parent_var,
                    None => {
                        return None;
                    },
                };
                let members = match ctx.db.concrete_struct_members(*concrete_struct_id) {
                    Ok(members) => members,
                    Err(_) => {
                        return None;
                    },
                };
                let member_idx: usize = match find_member(members, *member_id) {
                    Some(member_idx) => member_idx,
                    None => {
                        return None;
                    },
                };
                let member_tys = wrap_member_types(
                    members,
                    &ctx.variables[parent_var.var_id.0].ty,
                );
                Some(
                    StructMemberAccess { input: parent_var, member_tys, member_idx, location }.add(
                        ctx,
                        &mut self.statements,
                    ),
                )
            },
        }
    }

    /// Adds a statement to the block.
    pub fn push_statement(&mut self, statement: Statement)
        ensures
            final(self)@ == (BuilderView {
                statements: old(self)@.statements.push(statement@),
                ..old(self)@
            }),
    {
        self.statements.push_statement(statement);
    }

    /// Ends the block with a match none of whose arms goes on here.
    pub fn unreachable_match(self, ctx: &mut LoweringContext, match_info: MatchInfo)
        requires
            self@.block_id.0 < old(ctx).blocks@.len(),
        ensures
            ended(*old(ctx), *final(ctx), self@, BlockEndView::Match { info: match_info }),
    {
        self.finalize(ctx, BlockEnd::Match { info: match_info });
    }

    /// Ends the block with a panic.
    pub fn panic(self, ctx: &mut LoweringContext, data: VarUsage) -> (res: Maybe<()>)
        requires
            self@.block_id.0 < old(ctx).blocks@.len(),
        ensures
            res == Ok::<(), DiagnosticAdded>(()),
            ended(*old(ctx), *final(ctx), self@, BlockEndView::Panic(data)),
    {
        self.finalize(ctx, BlockEnd::Panic(data));
        Ok(())
    }

    /// Ends the block by going to the callsite.
    pub fn goto_callsite(self, expr: Option<VarUsage>) -> (res: SealedBlockBuilder)
        ensures
            res@ == (SealedView::GotoCallsite { builder: self@, expr }),
    {
        SealedBlockBuilder::GotoCallsite(SealedGotoCallsite { builder: self, expr })
    }

    /// Ends the block with a return of the references of the signature and of `expr`. Where one of
    /// the references is not there, that is reported instead.
    pub fn ret(self, ctx: &mut LoweringContext, expr: VarUsage, location: LocationId) -> (res:
        Maybe<()>)
        requires
            self@.block_id.0 < old(ctx).blocks@.len(),
            returned(*old(ctx), self@, expr, location).ok,
        ensures
            ({
                let r = returned(*old(ctx), self@, expr, location);
                &&& res == r.result
                &&& final(ctx).variables@ == r.variables
                &&& final(ctx).blocks@ == r.blocks
                &&& final(ctx).diagnostics@ == r.diagnostics
            }),
            same_inputs(*old(ctx), *final(ctx)),
    {
        let mut builder = self;
        let ghost before = state(builder, *ctx);
        let mut refs: Vec<VarUsage> = Vec::new();
        let mut i: usize = 0;
        assert(ctx.signature.extra_rets@.take(0) =~= Seq::empty());
        while i < ctx.signature.extra_rets.len()
            invariant
                i <= ctx.signature.extra_rets@.len(),
                before == state(self, *old(ctx)),
                same_but_variables(*old(ctx), *ctx),
                read_refs(old(ctx).db, before, old(ctx).signature.extra_rets@).ok,
                ({
                    let r = read_refs(
                        old(ctx).db,
                        before,
                        old(ctx).signature.extra_rets@.take(i as int),
                    );
                    &&& r.value == Some(refs@)
                    &&& r.state == state(builder, *ctx)
                }),
                builder@.block_id == before.builder.block_id,
            decreases old(ctx).signature.extra_rets@.len() - i,
        {
            let path = ctx.signature.extra_rets[i].clone();
            proof {
                let paths = old(ctx).signature.extra_rets@;
                assert(paths.take(i + 1).drop_last() =~= paths.take(i as int));
                lemma_read_refs_prefix(old(ctx).db, before, paths, i + 1);
            }
            match builder.get_ref(ctx, &path) {
                Some(usage) => {
                    refs.push(usage);
                },
                None => {
                    ctx.diagnostics.push(
                        LoweringDiagnostic {
                            location,
                            kind: LoweringDiagnosticKind::UnexpectedError,
                        },
                    );
                    return Err(DiagnosticAdded);
                },
            }
            i = i + 1;
        }
        assert(ctx.signature.extra_rets@.take(i as int) =~= ctx.signature.extra_rets@);
        refs.push(expr);
        builder.finalize(ctx, BlockEnd::Return(refs, location));
        Ok(())
    }

    /// Sets the block, with the given end.
    pub fn finalize(self, ctx: &mut LoweringContext, end: BlockEnd)
        requires
            self@.block_id.0 < old(ctx).blocks@.len(),
        ensures
            ended(*old(ctx), *final(ctx), self@, end@),
    {
        let block = Block { statements: self.statements.statements, end };
        ctx.blocks.set_block(self.block_id, block);
    }
}

/// The outcome of a return.
#[verifier::ext_equal]
pub struct Returned {
    pub variables: Seq<Variable>,
    pub blocks: Seq<Option<BlockView>>,
    pub diagnostics: Seq<LoweringDiagnostic>,
    pub result: Maybe<()>,
    /// Whether the references can be read.
    pub ok: bool,
}

/// Ends a block with a return of the references of the signature and of `expr`. Where one of the
/// references is not there, that is reported instead.
pub open spec fn returned(
    ctx: LoweringContext,
    builder: BuilderView,
    expr: VarUsage,
    location: LocationId,
) -> Returned {
    let r = read_refs(
        ctx.db,
        State { builder, variables: ctx.variables@ },
        ctx.signature.extra_rets@,
    );
    match r.value {
        Some(refs) => Returned {
            variables: r.state.variables,
            blocks: with_block(
                ctx.blocks@,
                r.state.builder,
                BlockEndView::Return(refs.push(expr), location),
            ),
            diagnostics: ctx.diagnostics@,
            result: Ok(()),
            ok: r.ok,
        },
        None => Returned {
            variables: r.state.variables,
            blocks: ctx.blocks@,
            diagnostics: ctx.diagnostics@.push(
                LoweringDiagnostic { location, kind: LoweringDiagnosticKind::UnexpectedError },
            ),
            result: Err(DiagnosticAdded),
            ok: r.ok,
        },
    }
}

/// The block of `builder` was set, with the given end, and nothing else happened.
pub open spec fn ended(
    before: LoweringContext,
    after: LoweringContext,
    builder: BuilderView,
    end: BlockEndView,
) -> bool {
    &&& same_inputs(before, after)
    &&& after.variables@ == before.variables@
    &&& after.blocks@ == with_block(before.blocks@, builder, end)
    &&& after.diagnostics@ == before.diagnostics@
}

/// The types of members, each with as many snapshots around it as there are around `like`.
fn wrap_member_types(members: &Vec<Member>, like: &Type) -> (res: Vec<Type>)
    ensures
        res@ == wrapped_member_types(members@, crate::types::snapshot_depth(*like)),
{
    let mut res: Vec<Type> = Vec::new();
    let mut i: usize = 0;
    while i < members.len()
        invariant
            i <= members.len(),
            res@ == wrapped_member_types(
                members@.take(i as int),
                crate::types::snapshot_depth(*like),
            ),
        decreases members.len() - i,
    {
        res.push(wrap_in_snapshots_of(like, &members[i].ty));
        i = i + 1;
        assert(res@ =~= wrapped_member_types(
            members@.take(i as int),
            crate::types::snapshot_depth(*like),
        ));
    }
    assert(members@.take(i as int) =~= members@);
    res
}

} // verus!
