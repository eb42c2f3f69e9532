use std::collections::HashMap;

use cairo_block_builder::block_builder::BlockBuilder;
use cairo_block_builder::context::{
    get_ty, DiagnosticAdded, LoweringContext, LoweringDiagnostic, LoweringDiagnosticKind, Member,
    Signature, StructTable,
};
use cairo_block_builder::ids::{
    BlockId, ConcreteStructId, LocationId, MemberId, StablePtrId, VarId, VariableId,
};
use cairo_block_builder::member_path::{ExprVar, ExprVarMemberPath, MemberPath};
use cairo_block_builder::objects::{
    BlockEnd, BlocksBuilder, MatchArm, MatchInfo, Statement, VarUsage, Variable,
};
use cairo_block_builder::recomposer::BlockStructRecomposer;
use cairo_block_builder::refs::{Members, Value};
use cairo_block_builder::types::Type;

const PAIR: ConcreteStructId = ConcreteStructId(0);
const OUTER: ConcreteStructId = ConcreteStructId(1);
const BROKEN: ConcreteStructId = ConcreteStructId(2);
const X: MemberId = MemberId(10);
const Y: MemberId = MemberId(11);
const P: MemberId = MemberId(20);
const Q: MemberId = MemberId(21);

fn loc(n: u64) -> LocationId {
    LocationId { stable_ptr: StablePtrId(n) }
}

fn v(n: usize) -> VariableId {
    VariableId(n)
}

fn usage(n: usize, at: u64) -> VarUsage {
    VarUsage { var_id: v(n), location: loc(at) }
}

fn snapshot(ty: Type) -> Type {
    Type::Snapshot(Box::new(ty))
}

/// Two structs, `Pair { x, y }` and `Outer { p: Pair, q }`, one that is not known, and a function
/// with a variable for each of the given types.
fn context(types: Vec<Type>) -> LoweringContext {
    let pair = vec![Member { id: X, ty: Type::Other(1) }, Member { id: Y, ty: Type::Other(2) }];
    let outer = vec![Member { id: P, ty: Type::Struct(PAIR) }, Member { id: Q, ty: Type::Other(3) }];
    let variables =
        types.into_iter().map(|ty| Variable { ty, location: loc(1000) }).collect();
    let mut blocks = BlocksBuilder::new();
    for _ in 0..4 {
        blocks.alloc_empty();
    }
    LoweringContext {
        db: StructTable { structs: vec![Ok(pair), Ok(outer), Err(DiagnosticAdded)] },
        variables,
        signature: Signature { extra_rets: vec![] },
        semantic_defs: HashMap::from([(0, Type::Struct(PAIR)), (1, Type::Struct(OUTER))]),
        blocks,
        diagnostics: vec![],
    }
}

fn var_path(n: u64) -> MemberPath {
    MemberPath::Var(VarId(n))
}

fn member_path(parent: MemberPath, struct_id: ConcreteStructId, member_id: MemberId) -> MemberPath {
    MemberPath::Member { parent: Box::new(parent), member_id, concrete_struct_id: struct_id }
}

fn var_expr(n: u64, at: u64) -> ExprVarMemberPath {
    ExprVarMemberPath::Var(ExprVar {
        var: VarId(n),
        ty: Type::Struct(PAIR),
        stable_ptr: StablePtrId(at),
    })
}

fn member_expr(
    parent: ExprVarMemberPath,
    struct_id: ConcreteStructId,
    member_id: MemberId,
    at: u64,
) -> ExprVarMemberPath {
    ExprVarMemberPath::Member {
        parent: Box::new(parent),
        member_id,
        stable_ptr: StablePtrId(at),
        concrete_struct_id: struct_id,
        ty: Type::Other(9),
    }
}

/// A builder in which variable 0, a pair, is in the lowered variable 0.
fn with_pair() -> (LoweringContext, BlockBuilder) {
    let ctx = context(vec![Type::Struct(PAIR), Type::Other(1)]);
    let mut builder = BlockBuilder::root(BlockId(0));
    builder.put_semantic(VarId(0), v(0));
    (ctx, builder)
}

fn match_info() -> MatchInfo {
    MatchInfo {
        input: usage(0, 1),
        arms: vec![MatchArm { block_id: BlockId(1), var_ids: vec![v(1)] }],
        location: loc(2),
    }
}

#[test]
fn a_root_builder_is_empty() {
    let builder = BlockBuilder::root(BlockId(3));
    assert_eq!(builder.block_id, BlockId(3));
    assert!(builder.semantics.entries.is_empty());
    assert!(builder.statements.statements.is_empty());
    assert!(builder.snapped_semantics.is_empty());
}

#[test]
fn a_bound_variable_is_read_from_where_it_was_put() {
    let (mut ctx, mut builder) = with_pair();
    assert_eq!(builder.get_ref(&mut ctx, &var_expr(0, 7)), Some(usage(0, 7)));
    builder.put_semantic(VarId(0), v(1));
    assert_eq!(builder.get_ref(&mut ctx, &var_expr(0, 8)), Some(usage(1, 8)));
    assert!(builder.statements.statements.is_empty());
    assert_eq!(ctx.variables.len(), 2);
    assert_eq!(builder.semantics.entries, vec![(var_path(0), Value::Var(v(1)))]);
}

#[test]
fn what_was_not_introduced_is_not_read() {
    let (mut ctx, mut builder) = with_pair();
    assert_eq!(builder.get_ref(&mut ctx, &var_expr(5, 7)), None);
    let path = member_path(var_path(5), PAIR, X);
    assert_eq!(builder.get_ref_raw(&mut ctx, &path, loc(7)), None);
    // A struct is taken apart before it turns out that it has no such member.
    let path = member_path(var_path(0), PAIR, Q);
    assert_eq!(builder.get_ref_raw(&mut ctx, &path, loc(7)), None);
    assert_eq!(builder.statements.statements.len(), 1);
}

#[test]
fn a_member_is_read_by_taking_its_struct_apart() {
    let (mut ctx, mut builder) = with_pair();
    let y = member_expr(var_expr(0, 7), PAIR, Y, 8);
    assert_eq!(builder.get_ref(&mut ctx, &y), Some(usage(3, 8)));
    assert_eq!(
        builder.statements.statements,
        vec![Statement::StructDestructure { input: usage(0, 8), outputs: vec![v(2), v(3)] }]
    );
    // The members have the location of the variable of the struct.
    assert_eq!(
        ctx.variables[2..],
        [
            Variable { ty: Type::Other(1), location: loc(1000) },
            Variable { ty: Type::Other(2), location: loc(1000) },
        ]
    );
    assert_eq!(
        builder.semantics.entries,
        vec![(
            var_path(0),
            Value::Scattered {
                concrete_struct_id: PAIR,
                members: Box::new(Members::Cons {
                    member_id: X,
                    value: Box::new(Value::Var(v(2))),
                    rest: Box::new(Members::Cons {
                        member_id: Y,
                        value: Box::new(Value::Var(v(3))),
                        rest: Box::new(Members::Nil),
                    }),
                }),
            }
        )]
    );
}

#[test]
fn a_second_read_emits_nothing() {
    let (mut ctx, mut builder) = with_pair();
    let x = member_path(var_path(0), PAIR, X);
    let first = builder.get_ref_raw(&mut ctx, &x, loc(7));
    let second = builder.get_ref_raw(&mut ctx, &x, loc(7));
    assert_eq!(first, Some(usage(2, 7)));
    assert_eq!(first, second);
    assert_eq!(builder.statements.statements.len(), 1);
    assert_eq!(ctx.variables.len(), 4);
}

#[test]
fn a_struct_that_was_taken_apart_is_put_together_again() {
    let (mut ctx, mut builder) = with_pair();
    builder.get_ref_raw(&mut ctx, &member_path(var_path(0), PAIR, X), loc(7));
    assert_eq!(builder.get_ref_raw(&mut ctx, &var_path(0), loc(9)), Some(usage(4, 9)));
    assert_eq!(
        builder.statements.statements[1],
        Statement::StructConstruct { inputs: vec![usage(2, 9), usage(3, 9)], output: v(4) }
    );
    assert_eq!(ctx.variables[4], Variable { ty: Type::Struct(PAIR), location: loc(9) });
    // From now on it is in one variable.
    assert_eq!(builder.semantics.entries, vec![(var_path(0), Value::Var(v(4)))]);
}

#[test]
fn members_of_members_are_read_through_both_structs() {
    let mut ctx = context(vec![Type::Struct(OUTER)]);
    let mut builder = BlockBuilder::root(BlockId(0));
    builder.put_semantic(VarId(1), v(0));
    let p = member_path(var_path(1), OUTER, P);
    let y = member_path(p.clone(), PAIR, Y);
    assert_eq!(builder.get_ref_raw(&mut ctx, &y, loc(7)), Some(usage(4, 7)));
    assert_eq!(
        builder.statements.statements,
        vec![
            Statement::StructDestructure { input: usage(0, 7), outputs: vec![v(1), v(2)] },
            Statement::StructDestructure { input: usage(1, 7), outputs: vec![v(3), v(4)] },
        ]
    );
    // Reading the whole puts the inner struct together before the outer one.
    assert_eq!(builder.get_ref_raw(&mut ctx, &var_path(1), loc(8)), Some(usage(6, 8)));
    assert_eq!(
        builder.statements.statements[2..],
        [
            Statement::StructConstruct { inputs: vec![usage(3, 8), usage(4, 8)], output: v(5) },
            Statement::StructConstruct { inputs: vec![usage(5, 8), usage(2, 8)], output: v(6) },
        ]
    );
}

#[test]
fn an_update_is_read_back_and_leaves_the_rest() {
    let (mut ctx, mut builder) = with_pair();
    let x = member_path(var_path(0), PAIR, X);
    let y = member_path(var_path(0), PAIR, Y);
    builder.update_ref_raw(&mut ctx, x.clone(), v(1), loc(7));
    assert_eq!(builder.get_ref_raw(&mut ctx, &x, loc(8)), Some(usage(1, 8)));
    assert_eq!(builder.get_ref_raw(&mut ctx, &y, loc(8)), Some(usage(3, 8)));
    assert_eq!(builder.statements.statements.len(), 1);
    assert_eq!(builder.get_ref_raw(&mut ctx, &var_path(0), loc(9)), Some(usage(4, 9)));
    assert_eq!(
        builder.statements.statements[1],
        Statement::StructConstruct { inputs: vec![usage(1, 9), usage(3, 9)], output: v(4) }
    );
}

#[test]
fn an_update_of_a_whole_variable_takes_nothing_apart() {
    let (mut ctx, mut builder) = with_pair();
    builder.update_ref(&mut ctx, &var_expr(0, 7), v(1));
    assert_eq!(builder.get_ref(&mut ctx, &var_expr(0, 8)), Some(usage(1, 8)));
    assert!(builder.statements.statements.is_empty());
}

#[test]
fn an_update_of_what_is_not_there_binds_nothing() {
    let (mut ctx, mut builder) = with_pair();
    builder.update_ref(&mut ctx, &var_expr(5, 7), v(1));
    assert_eq!(builder.get_ref(&mut ctx, &var_expr(5, 8)), None);
    assert_eq!(builder.semantics.entries, vec![(var_path(0), Value::Var(v(0)))]);
}

#[test]
fn a_recorded_snapshot_is_read_back() {
    let (mut ctx, mut builder) = with_pair();
    assert_eq!(builder.get_snap_ref(&mut ctx, &var_expr(0, 7)), None);
    builder.update_snap_ref(&var_expr(0, 7), v(1));
    assert_eq!(builder.get_snap_ref(&mut ctx, &var_expr(0, 8)), Some(usage(1, 8)));
    assert!(builder.statements.statements.is_empty());
}

#[test]
fn the_snapshot_of_a_member_is_taken_out_of_that_of_its_struct() {
    let mut ctx = context(vec![Type::Struct(OUTER), snapshot(snapshot(Type::Struct(OUTER)))]);
    let mut builder = BlockBuilder::root(BlockId(0));
    builder.put_semantic(VarId(1), v(0));
    builder.update_snap_ref(&var_expr(1, 5), v(1));
    let p = member_expr(var_expr(1, 6), OUTER, P, 7);
    let y = member_expr(p, PAIR, Y, 8);
    assert_eq!(builder.get_snap_ref(&mut ctx, &y), Some(usage(5, 8)));
    assert_eq!(
        builder.statements.statements,
        vec![
            Statement::StructDestructure { input: usage(1, 6), outputs: vec![v(2), v(3)] },
            Statement::StructDestructure { input: usage(2, 7), outputs: vec![v(4), v(5)] },
        ]
    );
    // Each member has as many snapshots around it as its struct.
    let types: Vec<Type> = ctx.variables[2..].iter().map(|var| var.ty.clone()).collect();
    assert_eq!(
        types,
        vec![
            snapshot(snapshot(Type::Struct(PAIR))),
            snapshot(snapshot(Type::Other(3))),
            snapshot(snapshot(Type::Other(1))),
            snapshot(snapshot(Type::Other(2))),
        ]
    );
    assert_eq!(ctx.variables[5].location, loc(8));
    // What was taken out is not recorded.
    assert_eq!(builder.snapped_semantics.len(), 1);
}

#[test]
fn a_snapshot_of_a_member_needs_its_struct_to_be_known() {
    let (mut ctx, mut builder) = with_pair();
    builder.update_snap_ref(&var_expr(0, 5), v(1));
    let of_unknown_struct = member_expr(var_expr(0, 6), BROKEN, X, 7);
    assert_eq!(builder.get_snap_ref(&mut ctx, &of_unknown_struct), None);
    let unknown_member = member_expr(var_expr(0, 6), PAIR, Q, 7);
    assert_eq!(builder.get_snap_ref(&mut ctx, &unknown_member), None);
    let of_unknown_variable = member_expr(var_expr(5, 6), PAIR, X, 7);
    assert_eq!(builder.get_snap_ref(&mut ctx, &of_unknown_variable), None);
    assert!(builder.statements.statements.is_empty());
}

#[test]
fn an_update_drops_the_snapshot_of_its_path_alone() {
    let (mut ctx, mut builder) = with_pair();
    let x = member_expr(var_expr(0, 6), PAIR, X, 7);
    let y = member_expr(var_expr(0, 6), PAIR, Y, 7);
    builder.update_snap_ref(&x, v(1));
    builder.update_snap_ref(&y, v(0));
    builder.update_ref(&mut ctx, &x, v(1));
    assert_eq!(builder.get_snap_ref(&mut ctx, &x), None);
    assert_eq!(builder.get_snap_ref(&mut ctx, &y), Some(usage(0, 7)));
}

#[test]
fn the_last_snapshot_takes_the_place_of_the_one_that_is_dropped() {
    let (mut ctx, mut builder) = with_pair();
    for n in 0..3 {
        builder.update_snap_ref(&var_expr(n, 5), v(1));
    }
    builder.update_ref(&mut ctx, &var_expr(0, 6), v(1));
    let left: Vec<MemberPath> = builder.snapped_semantics.keys().cloned().collect();
    assert_eq!(left, vec![var_path(2), var_path(1)]);
}

#[test]
fn a_subscope_starts_where_its_parent_is() {
    let (mut ctx, mut builder) = with_pair();
    builder.get_ref_raw(&mut ctx, &member_path(var_path(0), PAIR, X), loc(7));
    builder.update_snap_ref(&var_expr(0, 5), v(1));
    for other in [
        builder.child_block_builder(BlockId(2)),
        builder.sibling_block_builder(BlockId(2)),
    ] {
        assert_eq!(other.semantics.entries, builder.semantics.entries);
        assert_eq!(other.snapped_semantics, builder.snapped_semantics);
        assert!(other.statements.statements.is_empty());
        assert_eq!(other.block_id, BlockId(2));
    }
    // What a subscope changes does not show in its parent.
    let mut child = builder.child_block_builder(BlockId(2));
    child.update_ref(&mut ctx, &var_expr(0, 9), v(1));
    assert_ne!(child.semantics.entries, builder.semantics.entries);
    assert_eq!(child.get_snap_ref(&mut ctx, &var_expr(0, 9)), None);
    assert_eq!(builder.get_snap_ref(&mut ctx, &var_expr(0, 9)), Some(usage(1, 9)));
}

#[test]
fn a_clone_holds_the_same() {
    let (mut ctx, mut builder) = with_pair();
    builder.get_ref_raw(&mut ctx, &member_path(var_path(0), PAIR, X), loc(7));
    builder.push_statement(Statement::Call {
        function: 4,
        inputs: vec![usage(1, 3)],
        outputs: vec![v(2)],
        location: loc(3),
    });
    builder.update_snap_ref(&var_expr(0, 5), v(1));
    let clone = builder.clone();
    assert_eq!(clone.semantics.entries, builder.semantics.entries);
    assert_eq!(clone.snapped_semantics, builder.snapped_semantics);
    assert_eq!(clone.statements.statements, builder.statements.statements);
    assert_eq!(clone.block_id, builder.block_id);
    assert_eq!(format!("{clone:?}"), format!("{builder:?}"));
}

#[test]
fn statements_are_kept_in_their_order() {
    let mut builder = BlockBuilder::root(BlockId(0));
    let statements = vec![
        Statement::Const { value: 5, output: v(0) },
        Statement::EnumConstruct { variant: 1, input: usage(0, 1), output: v(1) },
        Statement::Desnap { input: usage(1, 2), output: v(2) },
    ];
    for statement in &statements {
        builder.push_statement(statement.clone());
    }
    assert_eq!(builder.statements.statements, statements);
}

#[test]
fn a_block_ends_with_its_statements() {
    let (mut ctx, mut builder) = with_pair();
    builder.push_statement(Statement::Const { value: 5, output: v(1) });
    assert_eq!(builder.panic(&mut ctx, usage(1, 3)), Ok(()));
    let block = ctx.blocks.blocks[0].as_ref().unwrap();
    assert_eq!(block.statements, vec![Statement::Const { value: 5, output: v(1) }]);
    assert!(matches!(block.end, BlockEnd::Panic(data) if data == usage(1, 3)));
    assert!(ctx.blocks.blocks[1..].iter().all(|block| block.is_none()));
}

#[test]
fn a_block_ends_with_a_match() {
    let mut ctx = context(vec![]);
    BlockBuilder::root(BlockId(2)).unreachable_match(&mut ctx, match_info());
    let block = ctx.blocks.blocks[2].as_ref().unwrap();
    assert!(matches!(&block.end, BlockEnd::Match { info } if *info == match_info()));
}

#[test]
fn a_return_gives_back_the_references_before_the_value() {
    let (mut ctx, mut builder) = with_pair();
    builder.put_semantic(VarId(1), v(1));
    let y = member_expr(var_expr(0, 6), PAIR, Y, 7);
    ctx.signature.extra_rets = vec![var_expr(1, 8), y];
    assert_eq!(builder.ret(&mut ctx, usage(1, 9), loc(10)), Ok(()));
    let block = ctx.blocks.blocks[0].as_ref().unwrap();
    let BlockEnd::Return(values, location) = &block.end else { panic!("not a return") };
    assert_eq!(*values, vec![usage(1, 8), usage(3, 7), usage(1, 9)]);
    assert_eq!(*location, loc(10));
    assert_eq!(block.statements.len(), 1);
    assert!(ctx.diagnostics.is_empty());
}

#[test]
fn a_return_without_one_of_its_references_is_reported() {
    let (mut ctx, builder) = with_pair();
    ctx.signature.extra_rets = vec![var_expr(0, 7), var_expr(5, 8)];
    assert_eq!(builder.ret(&mut ctx, usage(1, 9), loc(10)), Err(DiagnosticAdded));
    assert_eq!(
        ctx.diagnostics,
        vec![LoweringDiagnostic {
            location: loc(10),
            kind: LoweringDiagnosticKind::UnexpectedError,
        }]
    );
    assert!(ctx.blocks.blocks[0].is_none());
}

#[test]
fn a_path_has_the_type_of_its_variable_or_of_its_member() {
    let ctx = context(vec![]);
    assert_eq!(get_ty(&ctx, &var_path(1)), Type::Struct(OUTER));
    let p = member_path(var_path(1), OUTER, P);
    assert_eq!(get_ty(&ctx, &p), Type::Struct(PAIR));
    assert_eq!(get_ty(&ctx, &member_path(p, PAIR, Y)), Type::Other(2));
}

#[test]
fn the_recomposer_undoes_what_it_does() {
    let (mut ctx, mut builder) = with_pair();
    let recomposer = BlockStructRecomposer { location: loc(7) };
    assert_eq!(recomposer.var_ty(&ctx, v(0)), Type::Struct(PAIR));
    let members = recomposer.deconstruct(&mut ctx, &mut builder.statements, PAIR, v(0));
    let pairs: Vec<(MemberId, VariableId)> = members.iter().map(|(id, var)| (*id, *var)).collect();
    assert_eq!(pairs, vec![(X, v(2)), (Y, v(3))]);
    let whole = recomposer.reconstruct(&mut ctx, &mut builder.statements, PAIR, &vec![v(2), v(3)]);
    assert_eq!(whole, v(4));
    assert_eq!(recomposer.var_ty(&ctx, whole), Type::Struct(PAIR));
    assert_eq!(
        builder.statements.statements,
        vec![
            Statement::StructDestructure { input: usage(0, 7), outputs: vec![v(2), v(3)] },
            Statement::StructConstruct { inputs: vec![usage(2, 7), usage(3, 7)], output: v(4) },
        ]
    );
}
