use std::collections::HashMap;

use cairo_block_builder::block_builder::{merge_block_builders, BlockBuilder};
use cairo_block_builder::context::{
    DiagnosticAdded, LoweringContext, Member, Signature, StructTable,
};
use cairo_block_builder::ids::{
    BlockId, ConcreteStructId, LocationId, MemberId, StablePtrId, VarId, VariableId,
};
use cairo_block_builder::member_path::MemberPath;
use cairo_block_builder::objects::{
    Block, BlockEnd, BlocksBuilder, Statement, VarUsage, Variable,
};
use cairo_block_builder::refs::{Members, Value};
use cairo_block_builder::types::Type;

const PAIR: ConcreteStructId = ConcreteStructId(0);
const X: MemberId = MemberId(10);
const Y: MemberId = MemberId(11);

fn loc(n: u64) -> LocationId {
    LocationId { stable_ptr: StablePtrId(n) }
}

fn v(n: usize) -> VariableId {
    VariableId(n)
}

fn usage(n: usize, at: u64) -> VarUsage {
    VarUsage { var_id: v(n), location: loc(at) }
}

/// A struct, `Pair { x, y }`, and a function with two variables: a pair and a number.
fn context(types: Vec<Type>) -> LoweringContext {
    let pair = vec![Member { id: X, ty: Type::Other(1) }, Member { id: Y, ty: Type::Other(2) }];
    let variables =
        types.into_iter().map(|ty| Variable { ty, location: loc(1000) }).collect();
    let mut blocks = BlocksBuilder::new();
    for _ in 0..4 {
        blocks.alloc_empty();
    }
    LoweringContext {
        db: StructTable { structs: vec![Ok(pair), Err(DiagnosticAdded)] },
        variables,
        signature: Signature { extra_rets: vec![] },
        semantic_defs: HashMap::from([(0, Type::Struct(PAIR)), (1, Type::Other(7))]),
        blocks,
        diagnostics: vec![],
    }
}

fn var_path(n: u64) -> MemberPath {
    MemberPath::Var(VarId(n))
}

fn member(member_id: MemberId) -> MemberPath {
    MemberPath::Member { parent: Box::new(var_path(0)), member_id, concrete_struct_id: PAIR }
}

fn scattered(x: usize, y: usize) -> Value {
    Value::Scattered {
        concrete_struct_id: PAIR,
        members: Box::new(Members::Cons {
            member_id: X,
            value: Box::new(Value::Var(v(x))),
            rest: Box::new(Members::Cons {
                member_id: Y,
                value: Box::new(Value::Var(v(y))),
                rest: Box::new(Members::Nil),
            }),
        }),
    }
}

/// The target of a block and what it remaps.
fn goto(block: &Option<Block>) -> (BlockId, Vec<(VariableId, VarUsage)>) {
    let BlockEnd::Goto(target, remapping) = &block.as_ref().unwrap().end else {
        panic!("not a goto")
    };
    (*target, remapping.remapping.iter().map(|(var, usage)| (*var, *usage)).collect())
}

/// Two builders in which variables 0 and 1 are in the lowered variables 0 and 1. There are four more
/// of those.
fn start() -> (LoweringContext, BlockBuilder, BlockBuilder) {
    let ctx = context(vec![
        Type::Struct(PAIR),
        Type::Other(7),
        Type::Other(7),
        Type::Other(7),
        Type::Struct(PAIR),
        Type::Other(1),
    ]);
    let mut builder = BlockBuilder::root(BlockId(0));
    builder.put_semantic(VarId(0), v(0));
    builder.put_semantic(VarId(1), v(1));
    let first = builder.child_block_builder(BlockId(1));
    let second = builder.child_block_builder(BlockId(2));
    (ctx, first, second)
}

#[test]
fn a_single_builder_is_returned_as_it_is() {
    let (mut ctx, mut first, _) = start();
    first.push_statement(Statement::Const { value: 2, output: v(2) });
    first.snapped_semantics.insert(var_path(0), v(4));
    let shown = format!("{first:?}");
    let joined = merge_block_builders(&mut ctx, vec![first], loc(9));
    assert_eq!(format!("{joined:?}"), shown);
    assert_eq!(ctx.blocks.blocks.len(), 4);
    assert_eq!(ctx.variables.len(), 6);
}

#[test]
fn a_variable_in_the_same_place_stays_there() {
    let (mut ctx, mut first, second) = start();
    first.push_statement(Statement::Const { value: 2, output: v(2) });
    let joined = merge_block_builders(&mut ctx, vec![first, second], loc(9));
    assert_eq!(
        joined.semantics.entries,
        vec![(var_path(0), Value::Var(v(0))), (var_path(1), Value::Var(v(1)))]
    );
    assert_eq!(ctx.variables.len(), 6);
    assert_eq!(joined.block_id, BlockId(4));
    assert!(joined.statements.statements.is_empty());
    assert!(joined.snapped_semantics.is_empty());
    assert_eq!(goto(&ctx.blocks.blocks[1]), (BlockId(4), vec![]));
    assert_eq!(goto(&ctx.blocks.blocks[2]), (BlockId(4), vec![]));
    assert_eq!(
        ctx.blocks.blocks[1].as_ref().unwrap().statements,
        vec![Statement::Const { value: 2, output: v(2) }]
    );
    assert!(ctx.blocks.blocks[4].is_none());
}

#[test]
fn a_variable_in_different_places_gets_a_new_one() {
    let (mut ctx, mut first, mut second) = start();
    first.update_ref_raw(&mut ctx, var_path(1), v(2), loc(5));
    second.update_ref_raw(&mut ctx, var_path(1), v(3), loc(5));
    let joined = merge_block_builders(&mut ctx, vec![first, second], loc(9));
    assert_eq!(
        joined.semantics.entries,
        vec![(var_path(0), Value::Var(v(0))), (var_path(1), Value::Var(v(6)))]
    );
    assert_eq!(ctx.variables[6], Variable { ty: Type::Other(7), location: loc(9) });
    assert_eq!(goto(&ctx.blocks.blocks[1]), (BlockId(4), vec![(v(6), usage(2, 9))]));
    assert_eq!(goto(&ctx.blocks.blocks[2]), (BlockId(4), vec![(v(6), usage(3, 9))]));
}

#[test]
fn a_variable_of_only_some_of_the_blocks_is_dropped() {
    let (mut ctx, mut first, mut second) = start();
    first.put_semantic(VarId(5), v(2));
    second.put_semantic(VarId(6), v(2));
    let joined = merge_block_builders(&mut ctx, vec![first, second], loc(9));
    let paths: Vec<MemberPath> =
        joined.semantics.entries.iter().map(|(path, _)| path.clone()).collect();
    assert_eq!(paths, vec![var_path(0), var_path(1)]);
}

#[test]
fn a_struct_that_is_scattered_in_all_the_blocks_is_joined_member_by_member() {
    let (mut ctx, mut first, _) = start();
    first.get_ref_raw(&mut ctx, &member(X), loc(3));
    let mut second = first.child_block_builder(BlockId(2));
    second.update_ref_raw(&mut ctx, member(X), v(5), loc(5));
    let joined = merge_block_builders(&mut ctx, vec![first, second], loc(9));
    assert_eq!(joined.semantics.entries[0].1, scattered(8, 7));
    assert_eq!(ctx.variables[8].ty, Type::Other(1));
    assert_eq!(goto(&ctx.blocks.blocks[1]).1, vec![(v(8), usage(6, 9))]);
    assert_eq!(goto(&ctx.blocks.blocks[2]).1, vec![(v(8), usage(5, 9))]);
}

#[test]
fn a_struct_that_is_scattered_in_some_of_the_blocks_gets_one_variable() {
    let (mut ctx, mut first, second) = start();
    first.get_ref_raw(&mut ctx, &member(X), loc(3));
    let joined = merge_block_builders(&mut ctx, vec![first, second], loc(9));
    assert_eq!(joined.semantics.entries[0].1, Value::Var(v(8)));
    assert_eq!(ctx.variables[8].ty, Type::Struct(PAIR));
    // The first block puts the struct together before its end.
    assert_eq!(goto(&ctx.blocks.blocks[1]).1, vec![(v(8), usage(9, 9))]);
    assert_eq!(goto(&ctx.blocks.blocks[2]).1, vec![(v(8), usage(0, 9))]);
}

#[test]
fn what_was_joined_counts_as_unchanged() {
    let (mut ctx, mut first, second) = start();
    first.update_ref_raw(&mut ctx, var_path(1), v(2), loc(5));
    let joined = merge_block_builders(&mut ctx, vec![first, second], loc(9));
    let fresh = format!("{:?}", BlockBuilder::root(BlockId(4)));
    let shown = format!("{joined:?}");
    let changes = |text: &str| {
        let start = text.find("changed_member_paths").unwrap();
        let end = text.find("statements").unwrap();
        text[start..end].to_string()
    };
    assert_eq!(changes(&shown), changes(&fresh));
}

#[test]
fn no_builders_are_joined_to_an_empty_one() {
    let (mut ctx, _, _) = start();
    let joined = merge_block_builders(&mut ctx, vec![], loc(9));
    assert_eq!(joined.block_id, BlockId(4));
    assert!(joined.semantics.entries.is_empty());
    assert_eq!(ctx.blocks.blocks.len(), 5);
}
