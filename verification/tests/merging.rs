use std::collections::HashMap;

use cairo_block_builder::block_builder::{
    BlockBuilder, SealedBlockBuilder, SealedGotoCallsite, SemanticRemapping,
};
use cairo_block_builder::context::{
    DiagnosticAdded, LoweredExpr, LoweringContext, LoweringFlowError, Member, Signature,
    StructTable,
};
use cairo_block_builder::ids::{
    BlockId, ConcreteStructId, LocationId, MemberId, StablePtrId, VarId, VariableId,
};
use cairo_block_builder::member_path::MemberPath;
use cairo_block_builder::objects::{
    Block, BlockEnd, BlocksBuilder, MatchArm, MatchInfo, Statement, VarUsage, Variable,
};
use cairo_block_builder::refs::{Members, Value};
use cairo_block_builder::types::{Type, TypeList};

const PAIR: ConcreteStructId = ConcreteStructId(0);
const X: MemberId = MemberId(10);
const Y: MemberId = MemberId(11);

fn loc(n: u64) -> LocationId {
    LocationId { stable_ptr: StablePtrId(n) }
}

fn v(n: usize) -> VariableId {
    VariableId(n)
}

fn usage(n: usize, at: u64) -> VarUsage {
    VarUsage { var_id: v(n), location: loc(at) }
}

/// A struct, `Pair { x, y }`, and a function with two variables: a pair and a number.
fn context(types: Vec<Type>) -> LoweringContext {
    let pair = vec![Member { id: X, ty: Type::Other(1) }, Member { id: Y, ty: Type::Other(2) }];
    let variables =
        types.into_iter().map(|ty| Variable { ty, location: loc(1000) }).collect();
    let mut blocks = BlocksBuilder::new();
    for _ in 0..4 {
        blocks.alloc_empty();
    }
    LoweringContext {
        db: StructTable { structs: vec![Ok(pair), Err(DiagnosticAdded)] },
        variables,
        signature: Signature { extra_rets: vec![] },
        semantic_defs: HashMap::from([(0, Type::Struct(PAIR)), (1, Type::Other(7))]),
        blocks,
        diagnostics: vec![],
    }
}

fn var_path(n: u64) -> MemberPath {
    MemberPath::Var(VarId(n))
}

fn member(member_id: MemberId) -> MemberPath {
    MemberPath::Member { parent: Box::new(var_path(0)), member_id, concrete_struct_id: PAIR }
}

fn scattered(x: usize, y: usize) -> Value {
    Value::Scattered {
        concrete_struct_id: PAIR,
        members: Box::new(Members::Cons {
            member_id: X,
            value: Box::new(Value::Var(v(x))),
            rest: Box::new(Members::Cons {
                member_id: Y,
                value: Box::new(Value::Var(v(y))),
                rest: Box::new(Members::Nil),
            }),
        }),
    }
}

/// The target of a block and what it remaps.
fn goto(block: &Option<Block>) -> (BlockId, Vec<(VariableId, VarUsage)>) {
    let BlockEnd::Goto(target, remapping) = &block.as_ref().unwrap().end else {
        panic!("not a goto")
    };
    (*target, remapping.remapping.iter().map(|(var, usage)| (*var, *usage)).collect())
}

fn match_info() -> MatchInfo {
    MatchInfo {
        input: usage(0, 1),
        arms: vec![
            MatchArm { block_id: BlockId(1), var_ids: vec![] },
            MatchArm { block_id: BlockId(2), var_ids: vec![] },
        ],
        location: loc(2),
    }
}

/// Variables 0 and 1 are in the lowered variables 0 and 1. There are four more of those.
fn start() -> (LoweringContext, BlockBuilder) {
    let ctx = context(vec![
        Type::Struct(PAIR),
        Type::Other(7),
        Type::Other(7),
        Type::Other(7),
        Type::Struct(PAIR),
        Type::Other(1),
    ]);
    let mut builder = BlockBuilder::root(BlockId(0));
    builder.put_semantic(VarId(0), v(0));
    builder.put_semantic(VarId(1), v(1));
    (ctx, builder)
}

fn unit_type() -> Type {
    Type::Tuple(TypeList::Nil)
}

#[test]
fn a_variable_that_the_arms_change_is_remapped() {
    let (mut ctx, mut builder) = start();
    builder.push_statement(Statement::Const { value: 1, output: v(1) });
    let mut first = builder.child_block_builder(BlockId(1));
    first.update_ref_raw(&mut ctx, var_path(1), v(2), loc(5));
    first.push_statement(Statement::Const { value: 2, output: v(2) });
    let mut second = builder.child_block_builder(BlockId(2));
    second.update_ref_raw(&mut ctx, var_path(1), v(3), loc(5));
    let sealed = vec![first.goto_callsite(None), second.goto_callsite(None)];
    let merged = builder.merge_and_end_with_match(&mut ctx, match_info(), sealed, loc(9));

    assert!(matches!(
        merged,
        Ok(LoweredExpr::Tuple { exprs, location }) if exprs.is_empty() && location == loc(9)
    ));
    // The new variable has the type of the path.
    assert_eq!(ctx.variables.len(), 7);
    assert_eq!(ctx.variables[6], Variable { ty: Type::Other(7), location: loc(9) });
    // Both blocks go to the new one.
    assert_eq!(goto(&ctx.blocks.blocks[1]), (BlockId(4), vec![(v(6), usage(2, 9))]));
    assert_eq!(goto(&ctx.blocks.blocks[2]), (BlockId(4), vec![(v(6), usage(3, 9))]));
    assert_eq!(
        ctx.blocks.blocks[1].as_ref().unwrap().statements,
        vec![Statement::Const { value: 2, output: v(2) }]
    );
    // The block of the builder ends with the match, and the builder goes on behind it.
    let block = ctx.blocks.blocks[0].as_ref().unwrap();
    assert_eq!(block.statements, vec![Statement::Const { value: 1, output: v(1) }]);
    assert!(matches!(&block.end, BlockEnd::Match { info } if *info == match_info()));
    assert_eq!(builder.block_id, BlockId(4));
    assert!(builder.statements.statements.is_empty());
    assert_eq!(
        builder.semantics.entries,
        vec![(var_path(0), Value::Var(v(0))), (var_path(1), Value::Var(v(6)))]
    );
    assert!(ctx.blocks.blocks[4].is_none());
}

#[test]
fn an_arm_that_does_not_change_the_variable_hands_its_own_over() {
    let (mut ctx, mut builder) = start();
    let mut first = builder.child_block_builder(BlockId(1));
    first.update_ref_raw(&mut ctx, var_path(1), v(2), loc(5));
    let second = builder.child_block_builder(BlockId(2));
    let sealed = vec![first.goto_callsite(None), second.goto_callsite(None)];
    assert!(builder.merge_and_end_with_match(&mut ctx, match_info(), sealed, loc(9)).is_ok());
    assert_eq!(goto(&ctx.blocks.blocks[1]).1, vec![(v(6), usage(2, 9))]);
    assert_eq!(goto(&ctx.blocks.blocks[2]).1, vec![(v(6), usage(1, 9))]);
}

#[test]
fn the_values_of_the_arms_converge_to_a_new_variable() {
    let (mut ctx, mut builder) = start();
    let first = builder.child_block_builder(BlockId(1));
    let second = builder.child_block_builder(BlockId(2));
    let sealed =
        vec![first.goto_callsite(Some(usage(2, 6))), second.goto_callsite(Some(usage(3, 7)))];
    let merged = builder.merge_and_end_with_match(&mut ctx, match_info(), sealed, loc(9));
    assert!(matches!(merged, Ok(LoweredExpr::AtVariable(value)) if value == usage(6, 9)));
    // It is a copy of the variable of the first arm.
    assert_eq!(ctx.variables[6], Variable { ty: Type::Other(7), location: loc(1000) });
    assert_eq!(goto(&ctx.blocks.blocks[1]).1, vec![(v(6), usage(2, 6))]);
    assert_eq!(goto(&ctx.blocks.blocks[2]).1, vec![(v(6), usage(3, 7))]);
}

#[test]
fn an_arm_without_a_value_returns_the_unit_value() {
    let (mut ctx, mut builder) = start();
    let first = builder.child_block_builder(BlockId(1));
    let second = builder.child_block_builder(BlockId(2));
    let sealed = vec![first.goto_callsite(None), second.goto_callsite(Some(usage(3, 7)))];
    assert!(builder.merge_and_end_with_match(&mut ctx, match_info(), sealed, loc(9)).is_ok());
    let block = ctx.blocks.blocks[1].as_ref().unwrap();
    assert_eq!(
        block.statements,
        vec![Statement::StructConstruct { inputs: vec![], output: v(7) }]
    );
    assert_eq!(ctx.variables[7], Variable { ty: unit_type(), location: loc(1000) });
    assert_eq!(goto(&ctx.blocks.blocks[1]).1, vec![(v(6), usage(7, 1000))]);
}

#[test]
fn what_is_local_to_an_arm_is_not_remapped() {
    let (mut ctx, mut builder) = start();
    let mut first = builder.child_block_builder(BlockId(1));
    first.put_semantic(VarId(5), v(2));
    let sealed = vec![first.goto_callsite(None), SealedBlockBuilder::Ends(BlockId(2))];
    assert!(builder.merge_and_end_with_match(&mut ctx, match_info(), sealed, loc(9)).is_ok());
    assert_eq!(goto(&ctx.blocks.blocks[1]), (BlockId(4), vec![]));
    assert_eq!(ctx.variables.len(), 6);
    assert_eq!(builder.get_ref_raw(&mut ctx, &var_path(5), loc(9)), None);
    // An arm that has ended is left alone.
    assert!(ctx.blocks.blocks[2].is_none());
}

#[test]
fn a_match_none_of_whose_arms_goes_on_is_given_back() {
    for sealed in [vec![], vec![SealedBlockBuilder::Ends(BlockId(1))]] {
        let (mut ctx, mut builder) = start();
        let entries = builder.semantics.entries.len();
        let merged = builder.merge_and_end_with_match(&mut ctx, match_info(), sealed, loc(9));
        assert!(matches!(merged, Err(LoweringFlowError::Match(info)) if info == match_info()));
        assert_eq!(builder.block_id, BlockId(0));
        assert_eq!(builder.semantics.entries.len(), entries);
        assert_eq!(ctx.variables.len(), 6);
        assert_eq!(ctx.blocks.blocks.len(), 4);
        assert!(ctx.blocks.blocks[0].is_none());
    }
}

#[test]
fn the_members_of_a_scattered_struct_are_remapped_one_by_one() {
    let (mut ctx, mut builder) = start();
    builder.get_ref_raw(&mut ctx, &member(X), loc(3));
    assert_eq!(builder.semantics.entries[0].1, scattered(6, 7));
    let mut first = builder.child_block_builder(BlockId(1));
    first.update_ref_raw(&mut ctx, member(X), v(5), loc(5));
    let second = builder.child_block_builder(BlockId(2));
    let sealed = vec![first.goto_callsite(None), second.goto_callsite(None)];
    assert!(builder.merge_and_end_with_match(&mut ctx, match_info(), sealed, loc(9)).is_ok());
    // The last member comes first.
    assert_eq!(
        goto(&ctx.blocks.blocks[1]).1,
        vec![(v(8), usage(7, 9)), (v(9), usage(5, 9))]
    );
    assert_eq!(
        goto(&ctx.blocks.blocks[2]).1,
        vec![(v(8), usage(7, 9)), (v(9), usage(6, 9))]
    );
    assert_eq!(ctx.variables[8].ty, Type::Other(2));
    assert_eq!(ctx.variables[9].ty, Type::Other(1));
    assert_eq!(builder.semantics.entries[0].1, scattered(9, 8));
}

#[test]
fn a_member_of_a_whole_struct_is_remapped_with_its_struct() {
    let (mut ctx, mut builder) = start();
    let mut first = builder.child_block_builder(BlockId(1));
    first.update_ref_raw(&mut ctx, member(X), v(5), loc(5));
    let sealed = vec![first.goto_callsite(None)];
    assert!(builder.merge_and_end_with_match(&mut ctx, match_info(), sealed, loc(9)).is_ok());
    // The struct was taken apart in the arm, and is put together before its end.
    let block = ctx.blocks.blocks[1].as_ref().unwrap();
    assert_eq!(
        block.statements,
        vec![
            Statement::StructDestructure { input: usage(0, 5), outputs: vec![v(6), v(7)] },
            Statement::StructConstruct { inputs: vec![usage(5, 9), usage(7, 9)], output: v(9) },
        ]
    );
    assert_eq!(goto(&ctx.blocks.blocks[1]).1, vec![(v(8), usage(9, 9))]);
    assert_eq!(builder.semantics.entries[0].1, Value::Var(v(8)));
}

#[test]
fn members_are_not_remapped_beside_their_struct() {
    let (mut ctx, mut builder) = start();
    builder.get_ref_raw(&mut ctx, &member(X), loc(3));
    let mut first = builder.child_block_builder(BlockId(1));
    first.update_ref_raw(&mut ctx, member(X), v(5), loc(5));
    let mut second = builder.child_block_builder(BlockId(2));
    second.update_ref_raw(&mut ctx, var_path(0), v(4), loc(5));
    let sealed = vec![first.goto_callsite(None), second.goto_callsite(None)];
    assert!(builder.merge_and_end_with_match(&mut ctx, match_info(), sealed, loc(9)).is_ok());
    // The members got variables before the struct did.
    assert_eq!(ctx.variables[10].ty, Type::Struct(PAIR));
    assert_eq!(goto(&ctx.blocks.blocks[2]).1, vec![(v(10), usage(4, 9))]);
    assert_eq!(goto(&ctx.blocks.blocks[1]).1, vec![(v(10), usage(11, 9))]);
    assert_eq!(builder.semantics.entries[0].1, Value::Var(v(10)));
}

#[test]
fn what_is_merged_counts_as_changed() {
    let (mut ctx, builder) = start();
    // The inner match is within an arm of the outer one.
    let mut arm = builder.child_block_builder(BlockId(1));
    let mut inner = arm.child_block_builder(BlockId(2));
    inner.update_ref_raw(&mut ctx, var_path(1), v(2), loc(5));
    let sealed = vec![inner.goto_callsite(None)];
    assert!(arm.merge_and_end_with_match(&mut ctx, match_info(), sealed, loc(8)).is_ok());
    let mut outer = builder;
    let sealed = vec![arm.goto_callsite(None)];
    assert!(outer.merge_and_end_with_match(&mut ctx, match_info(), sealed, loc(9)).is_ok());
    assert_eq!(goto(&ctx.blocks.blocks[2]), (BlockId(4), vec![(v(6), usage(2, 8))]));
    assert_eq!(goto(&ctx.blocks.blocks[4]), (BlockId(5), vec![(v(7), usage(6, 9))]));
    assert_eq!(outer.semantics.entries[1].1, Value::Var(v(7)));
}

#[test]
fn a_merge_drops_the_snapshots_of_what_it_remaps() {
    let (mut ctx, mut builder) = start();
    builder.snapped_semantics.insert(var_path(0), v(4));
    builder.snapped_semantics.insert(var_path(1), v(3));
    let mut first = builder.child_block_builder(BlockId(1));
    first.update_ref_raw(&mut ctx, var_path(1), v(2), loc(5));
    let sealed = vec![first.goto_callsite(None)];
    assert!(builder.merge_and_end_with_match(&mut ctx, match_info(), sealed, loc(9)).is_ok());
    let left: Vec<MemberPath> = builder.snapped_semantics.keys().cloned().collect();
    assert_eq!(left, vec![var_path(0)]);
}

#[test]
fn a_sealed_builder_holds_its_builder_and_its_value() {
    let (_, builder) = start();
    let SealedBlockBuilder::GotoCallsite(SealedGotoCallsite { builder, expr }) =
        builder.goto_callsite(Some(usage(2, 6)))
    else {
        panic!("not sealed")
    };
    assert_eq!(builder.block_id, BlockId(0));
    assert_eq!(builder.semantics.entries.len(), 2);
    assert_eq!(expr, Some(usage(2, 6)));
    let remapping = SemanticRemapping::default();
    assert_eq!(
        format!("{remapping:?}"),
        "SemanticRemapping { expr: None, member_path_value: OrderedHashMap({}) }"
    );
}

#[test]
fn a_block_that_has_ended_has_no_part_in_a_merge() {
    let outcome = |with_ended: bool| {
        let (mut ctx, mut builder) = start();
        let mut first = builder.child_block_builder(BlockId(1));
        first.update_ref_raw(&mut ctx, var_path(1), v(2), loc(5));
        let second = builder.child_block_builder(BlockId(2));
        let mut sealed =
            vec![first.goto_callsite(Some(usage(2, 6))), second.goto_callsite(Some(usage(3, 6)))];
        if with_ended {
            sealed.insert(1, SealedBlockBuilder::Ends(BlockId(3)));
            sealed.insert(0, SealedBlockBuilder::Ends(BlockId(3)));
        }
        let merged = builder.merge_and_end_with_match(&mut ctx, match_info(), sealed, loc(9));
        format!("{merged:?} {builder:?} {ctx:?}")
    };
    // How the types of the semantic variables are ordered is left aside.
    let shown = |text: String| {
        let start = text.find("semantic_defs").unwrap();
        let end = text.find("blocks: BlocksBuilder").unwrap();
        (text[..start].to_string(), text[end..].to_string())
    };
    assert_eq!(shown(outcome(true)), shown(outcome(false)));
}
