//! Laws of returns, and of the ends of blocks.
use vstd::prelude::*;

use crate::block_builder::returned;
use crate::context::{
    location_of, LoweringContext, LoweringDiagnostic, LoweringDiagnosticKind, StructTable,
};
use crate::generators::Emitted;
use crate::ids::{LocationId, VarId, VariableId};
use crate::laws::builder::{
    goes_on, law_get_contents, law_steps_go_on, lemma_goes_on_refl, lemma_goes_on_trans,
};
use crate::laws::mapping::{law_entries_stay, root};
use crate::laws::meaning::{
    all_hold, contents_at, distinct_members, entries_fit, path_fits, Shape, Valuation,
};
use crate::laws::merging::{
    law_fitting_paths_are_readable, lemma_all_hold_before_read, rooted, well_shaped,
};
use crate::laws::progress::lemma_read_fits;
use crate::member_path::{ExprVarMemberPath, MemberPath};
use crate::merge::with_block;
use crate::objects::{BlockEndView, BlockView, VarUsage};
use crate::ordered::has_key;
use crate::refs::{broken, Value};
use crate::state::{read_ref, read_refs, BuilderView, State};

verus! {

/// Setting a block changes that block alone: it has the statements of its builder and the given end.
pub proof fn law_block_is_set(
    blocks: Seq<Option<BlockView>>,
    builder: BuilderView,
    end: BlockEndView,
    b: int,
)
    requires
        builder.block_id.0 < blocks.len(),
        0 <= b < blocks.len(),
    ensures
        with_block(blocks, builder, end).len() == blocks.len(),
        with_block(blocks, builder, end)[b] == (if b == builder.block_id.0 {
            Some(BlockView { statements: builder.statements, end })
        } else {
            blocks[b]
        }),
{
}

/// What references are read as: one usage for each, in their order, at the location of the
/// reference, with the contents of its path. No path changes its contents.
pub proof fn law_read_refs_contents(
    db: StructTable,
    shape: Shape,
    before: State,
    paths: Seq<ExprVarMemberPath>,
    env: Valuation,
    q: MemberPath,
)
    requires
        distinct_members(db),
        entries_fit(db, shape, before.builder.semantics),
        forall|i: int| 0 <= i < paths.len() ==> path_fits(db, shape, (#[trigger] paths[i]).path()),
        read_refs(db, before, paths).ok,
        all_hold(read_refs(db, before, paths).state.builder.statements, env),
    ensures
        ({
            let r = read_refs(db, before, paths);
            let semantics = before.builder.semantics;
            &&& r.value matches Some(usages) ==> {
                &&& usages.len() == paths.len()
                &&& forall|i: int|
                    0 <= i < paths.len() ==> {
                        &&& (#[trigger] usages[i]).location == (LocationId {
                            stable_ptr: paths[i].spec_stable_ptr(),
                        })
                        &&& env(usages[i].var_id) == contents_at(
                            db,
                            semantics,
                            env,
                            paths[i].path(),
                        )
                    }
            }
            &&& contents_at(db, r.state.builder.semantics, env, q) == contents_at(
                db,
                semantics,
                env,
                q,
            )
            &&& entries_fit(db, shape, r.state.builder.semantics)
            &&& all_hold(before.builder.statements, env)
        }),
    decreases paths.len(),
{
    if paths.len() > 0 {
        let rest = paths.drop_last();
        let n = paths.len() - 1;
        let first = read_refs(db, before, rest);
        let r = read_refs(db, before, paths);
        assert forall|i: int| 0 <= i < rest.len() implies path_fits(
            db,
            shape,
            (#[trigger] rest[i]).path(),
        ) by {
            assert(path_fits(db, shape, paths[i].path()));
        }
        if let Some(usages) = first.value {
            let path = paths[n].path();
            let location = location_of(paths[n].spec_stable_ptr());
            lemma_all_hold_before_read(db, first.state, path, location, env);
            law_read_refs_contents(db, shape, before, rest, env, q);
            law_read_refs_contents(db, shape, before, rest, env, path);
            law_get_contents(db, shape, first.state, path, location, env, q);
            law_get_contents(db, shape, first.state, path, location, env, path);
            if let Some(all) = r.value {
                assert forall|i: int| 0 <= i < paths.len() implies {
                    &&& (#[trigger] all[i]).location == (LocationId {
                        stable_ptr: paths[i].spec_stable_ptr(),
                    })
                    &&& env(all[i].var_id) == contents_at(
                        db,
                        before.builder.semantics,
                        env,
                        paths[i].path(),
                    )
                } by {
                    if i < n {
                        assert(all[i] == usages[i]);
                        assert(rest[i] == paths[i]);
                    }
                }
            }
        } else {
            law_read_refs_contents(db, shape, before, rest, env, q);
        }
    }
}

/// The references are all there if and only if the builder has a value for the variable of each.
/// Reading them goes on from the state that it starts at, and changes neither the snapshots nor what
/// is recorded as changed.
pub proof fn law_read_refs_found(
    db: StructTable,
    shape: Shape,
    before: State,
    paths: Seq<ExprVarMemberPath>,
)
    requires
        well_shaped(db, shape, before.builder.semantics),
        forall|i: int| 0 <= i < paths.len() ==> path_fits(db, shape, (#[trigger] paths[i]).path()),
        read_refs(db, before, paths).ok,
    ensures
        ({
            let r = read_refs(db, before, paths);
            let semantics = before.builder.semantics;
            &&& r.value is Some <==> forall|i: int|
                0 <= i < paths.len() ==> has_key(
                    semantics,
                    MemberPath::Var(root((#[trigger] paths[i]).path())),
                )
            &&& goes_on(before, r.state)
            &&& r.state.builder.snapped == before.builder.snapped
            &&& r.state.builder.changed == before.builder.changed
            &&& well_shaped(db, shape, r.state.builder.semantics)
            &&& forall|key: MemberPath| #[trigger]
                has_key(r.state.builder.semantics, key) == has_key(semantics, key)
        }),
    decreases paths.len(),
{
    lemma_goes_on_refl(before);
    if paths.len() > 0 {
        let rest = paths.drop_last();
        let n = paths.len() - 1;
        let first = read_refs(db, before, rest);
        let r = read_refs(db, before, paths);
        let semantics = before.builder.semantics;
        assert forall|i: int| 0 <= i < rest.len() implies path_fits(
            db,
            shape,
            (#[trigger] rest[i]).path(),
        ) by {
            assert(path_fits(db, shape, paths[i].path()));
        }
        law_read_refs_found(db, shape, before, rest);
        let path = paths[n].path();
        let top = MemberPath::Var(root(path));
        let location = location_of(paths[n].spec_stable_ptr());
        if first.value is Some {
            let entries = first.state.builder.semantics;
            let emitted = first.state.emitted();
            law_steps_go_on(db, first.state, path, VariableId(0), location);
            lemma_goes_on_trans(before, first.state, r.state);
            assert forall|key: MemberPath| #[trigger]
                has_key(r.state.builder.semantics, key) == has_key(semantics, key) by {
                law_entries_stay(db, entries, emitted, path, VariableId(0), location, key);
                assert(has_key(entries, key) == has_key(semantics, key));
            }
            assert forall|key: MemberPath| #[trigger]
                has_key(r.state.builder.semantics, key) implies key is Var by {
                assert(has_key(semantics, key));
            }
            assert(has_key(entries, top) == has_key(semantics, top));
            if has_key(entries, top) {
                lemma_read_fits(db, shape, entries, emitted, path, location);
                law_fitting_paths_are_readable(db, shape, entries, emitted, path, location);
            } else {
                lemma_unknown_is_not_found(db, entries, emitted, path, location);
            }
            if forall|i: int|
                0 <= i < paths.len() ==> has_key(
                    semantics,
                    MemberPath::Var(root((#[trigger] paths[i]).path())),
                ) {
                assert(has_key(semantics, MemberPath::Var(root(paths[n].path()))));
            }
            if r.value is Some {
                assert forall|i: int| 0 <= i < paths.len() implies has_key(
                    semantics,
                    MemberPath::Var(root((#[trigger] paths[i]).path())),
                ) by {
                    if i < n {
                        assert(rest[i] == paths[i]);
                    }
                }
            }
        } else {
            let i = choose|i: int|
                0 <= i < rest.len() && !has_key(
                    semantics,
                    MemberPath::Var(root((#[trigger] rest[i]).path())),
                );
            assert(paths[i] == rest[i]);
        }
    }
}

/// A path whose variable has no entry is not there.
pub(crate) proof fn lemma_unknown_is_not_found(
    db: StructTable,
    entries: Seq<(MemberPath, Value)>,
    emitted: Emitted,
    path: MemberPath,
    location: LocationId,
)
    requires
        rooted(entries),
        !has_key(entries, MemberPath::Var(root(path))),
    ensures
        !broken(db, entries, emitted, path, location).found,
        broken(db, entries, emitted, path, location).entries == entries,
        broken(db, entries, emitted, path, location).emitted == emitted,
    decreases path,
{
    if let MemberPath::Member { parent, .. } = path {
        lemma_unknown_is_not_found(db, entries, emitted, *parent, location);
        assert(!has_key(entries, path));
    }
}

/// A return that succeeds ends the block with the references of the signature, in their order, and
/// then the value. In every valuation in which the statements of the block hold, each reference has
/// the contents that its path had when the return was made. Nothing else happens to the blocks, and
/// nothing is reported.
pub proof fn law_return(
    ctx: LoweringContext,
    shape: Shape,
    builder: BuilderView,
    expr: VarUsage,
    location: LocationId,
    env: Valuation,
)
    requires
        well_shaped(ctx.db, shape, builder.semantics),
        forall|i: int|
            0 <= i < ctx.signature.extra_rets@.len() ==> path_fits(
                ctx.db,
                shape,
                (#[trigger] ctx.signature.extra_rets@[i]).path(),
            ),
        builder.block_id.0 < ctx.blocks@.len(),
        returned(ctx, builder, expr, location).ok,
        returned(ctx, builder, expr, location).result is Ok,
    ensures
        ({
            let r = returned(ctx, builder, expr, location);
            let rets = ctx.signature.extra_rets@;
            let b = builder.block_id.0 as int;
            let block = r.blocks[b].unwrap();
            &&& r.blocks[b] is Some
            &&& builder.statements.is_prefix_of(block.statements)
            &&& block.end matches BlockEndView::Return(values, at) && {
                &&& at == location
                &&& values.len() == rets.len() + 1
                &&& values.last() == expr
                &&& forall|i: int|
                    0 <= i < rets.len() ==> (#[trigger] values[i]).location == (LocationId {
                        stable_ptr: rets[i].spec_stable_ptr(),
                    })
                &&& all_hold(block.statements, env) ==> forall|i: int|
                    0 <= i < rets.len() ==> env((#[trigger] values[i]).var_id) == contents_at(
                        ctx.db,
                        builder.semantics,
                        env,
                        rets[i].path(),
                    )
            }
            &&& r.blocks.len() == ctx.blocks@.len()
            &&& forall|c: int|
                0 <= c < ctx.blocks@.len() && c != b ==> #[trigger] r.blocks[c] == ctx.blocks@[c]
            &&& r.diagnostics == ctx.diagnostics@
            &&& ctx.variables@.is_prefix_of(r.variables)
        }),
{
    let rets = ctx.signature.extra_rets@;
    let before = State { builder, variables: ctx.variables@ };
    let r = read_refs(ctx.db, before, rets);
    let out = returned(ctx, builder, expr, location);
    law_read_refs_found(ctx.db, shape, before, rets);
    lemma_refs_len(ctx.db, before, rets);
    let end = BlockEndView::Return(r.value.unwrap().push(expr), location);
    law_block_is_set(ctx.blocks@, r.state.builder, end, builder.block_id.0 as int);
    let block = out.blocks[builder.block_id.0 as int].unwrap();
    let values = r.value.unwrap().push(expr);
    assert forall|i: int| 0 <= i < rets.len() implies (#[trigger] values[i]).location == (
    LocationId { stable_ptr: rets[i].spec_stable_ptr() }) by {
        assert(values[i] == r.value.unwrap()[i]);
    }
    if all_hold(block.statements, env) {
        law_read_refs_contents(ctx.db, shape, before, rets, env, MemberPath::Var(VarId(0)));
        assert forall|i: int| 0 <= i < rets.len() implies env((#[trigger] values[i]).var_id)
            == contents_at(ctx.db, builder.semantics, env, rets[i].path()) by {
            assert(values[i] == r.value.unwrap()[i]);
        }
    }
}

proof fn lemma_refs_len(db: StructTable, before: State, paths: Seq<ExprVarMemberPath>)
    ensures
        read_refs(db, before, paths).value matches Some(usages) ==> usages.len() == paths.len()
            && forall|i: int|
            0 <= i < paths.len() ==> (#[trigger] usages[i]).location == (LocationId {
                stable_ptr: paths[i].spec_stable_ptr(),
            }),
    decreases paths.len(),
{
    if paths.len() > 0 {
        let first = read_refs(db, before, paths.drop_last());
        lemma_refs_len(db, before, paths.drop_last());
        if let Some(all) = read_refs(db, before, paths).value {
            let usages = first.value.unwrap();
            assert forall|i: int| 0 <= i < paths.len() implies (#[trigger] all[i]).location == (
            LocationId { stable_ptr: paths[i].spec_stable_ptr() }) by {
                if i < paths.len() - 1 {
                    assert(all[i] == usages[i]);
                    assert(paths.drop_last()[i] == paths[i]);
                }
            }
        }
    }
}

/// A return succeeds if and only if the builder has a value for the variable of every reference of
/// the signature. Otherwise one diagnostic is added, at the location of the return, and no block is
/// set.
pub proof fn law_return_succeeds(
    ctx: LoweringContext,
    shape: Shape,
    builder: BuilderView,
    expr: VarUsage,
    location: LocationId,
)
    requires
        well_shaped(ctx.db, shape, builder.semantics),
        forall|i: int|
            0 <= i < ctx.signature.extra_rets@.len() ==> path_fits(
                ctx.db,
                shape,
                (#[trigger] ctx.signature.extra_rets@[i]).path(),
            ),
        returned(ctx, builder, expr, location).ok,
    ensures
        ({
            let r = returned(ctx, builder, expr, location);
            let rets = ctx.signature.extra_rets@;
            &&& r.result is Ok <==> forall|i: int|
                0 <= i < rets.len() ==> has_key(
                    builder.semantics,
                    MemberPath::Var(root((#[trigger] rets[i]).path())),
                )
            &&& r.result is Err ==> {
                &&& r.blocks == ctx.blocks@
                &&& r.diagnostics.len() == ctx.diagnostics@.len() + 1
                &&& r.diagnostics.drop_last() == ctx.diagnostics@
                &&& r.diagnostics.last().location == location
                &&& r.diagnostics.last().kind == LoweringDiagnosticKind::UnexpectedError
            }
        }),
{
    let r = returned(ctx, builder, expr, location);
    law_read_refs_found(
        ctx.db,
        shape,
        State { builder, variables: ctx.variables@ },
        ctx.signature.extra_rets@,
    );
    if r.result is Err {
        assert(r.diagnostics.drop_last() =~= ctx.diagnostics@);
    }
}

/// A return fails where one of the references is not there. The ones before it were read, which is
/// all that happened but for the report.
pub proof fn law_return_fails(
    ctx: LoweringContext,
    builder: BuilderView,
    expr: VarUsage,
    location: LocationId,
) -> (n: int)
    requires
        returned(ctx, builder, expr, location).result is Err,
    ensures
        ({
            let r = returned(ctx, builder, expr, location);
            let rets = ctx.signature.extra_rets@;
            let before = State { builder, variables: ctx.variables@ };
            let first = read_refs(ctx.db, before, rets.take(n));
            let missed = read_ref(
                ctx.db,
                first.state,
                rets[n].path(),
                location_of(rets[n].spec_stable_ptr()),
            );
            &&& 0 <= n < rets.len()
            &&& first.value is Some
            &&& missed.value is None
            &&& r.variables == missed.state.variables
            &&& r.blocks == ctx.blocks@
            &&& r.diagnostics.len() == ctx.diagnostics@.len() + 1
            &&& ctx.diagnostics@.is_prefix_of(r.diagnostics)
            &&& r.diagnostics.last() == (LoweringDiagnostic {
                location,
                kind: LoweringDiagnosticKind::UnexpectedError,
            })
        }),
{
    let r = returned(ctx, builder, expr, location);
    let rets = ctx.signature.extra_rets@;
    let before = State { builder, variables: ctx.variables@ };
    assert(ctx.diagnostics@ =~= r.diagnostics.subrange(0, ctx.diagnostics@.len() as int));
    lemma_first_missing(ctx.db, before, rets)
}

proof fn lemma_first_missing(
    db: StructTable,
    before: State,
    paths: Seq<ExprVarMemberPath>,
) -> (n: int)
    requires
        read_refs(db, before, paths).value is None,
    ensures
        ({
            let first = read_refs(db, before, paths.take(n));
            let missed = read_ref(
                db,
                first.state,
                paths[n].path(),
                location_of(paths[n].spec_stable_ptr()),
            );
            &&& 0 <= n < paths.len()
            &&& first.value is Some
            &&& missed.value is None
            &&& read_refs(db, before, paths).state == missed.state
        }),
    decreases paths.len(),
{
    let rest = paths.drop_last();
    if read_refs(db, before, rest).value is None {
        let n = lemma_first_missing(db, before, rest);
        assert(rest.take(n) =~= paths.take(n));
        assert(rest[n] == paths[n]);
        n
    } else {
        assert(paths.take(paths.len() - 1) =~= rest);
        paths.len() - 1
    }
}

} // verus!
