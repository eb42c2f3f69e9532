use std::collections::HashMap;

use cairo_block_builder::block_builder::{BlockBuilder, ExprClosure, Usage};
use cairo_block_builder::context::{
    DiagnosticAdded, LoweredExpr, LoweringContext, Member, Signature, StructTable,
};
use cairo_block_builder::ids::{
    BlockId, ConcreteStructId, LocationId, MemberId, StablePtrId, VarId, VariableId,
};
use cairo_block_builder::member_path::{ExprVar, ExprVarMemberPath, MemberPath};
use cairo_block_builder::objects::{BlocksBuilder, Statement, VarUsage, Variable};
use cairo_block_builder::refs::Value;
use cairo_block_builder::types::{wrap_in_snapshots_of, ClosureType, Type, TypeList};
use cairo_lang_utils::ordered_hash_map::OrderedHashMap;

const PAIR: ConcreteStructId = ConcreteStructId(0);
const X: MemberId = MemberId(10);
const Y: MemberId = MemberId(11);

fn loc(n: u64) -> LocationId {
    LocationId { stable_ptr: StablePtrId(n) }
}

fn v(n: usize) -> VariableId {
    VariableId(n)
}

fn usage(n: usize, at: u64) -> VarUsage {
    VarUsage { var_id: v(n), location: loc(at) }
}

fn snapshot(ty: Type) -> Type {
    Type::Snapshot(Box::new(ty))
}

fn var_path(n: u64) -> MemberPath {
    MemberPath::Var(VarId(n))
}

fn var_expr(n: u64, ty: Type, at: u64) -> ExprVarMemberPath {
    ExprVarMemberPath::Var(ExprVar { var: VarId(n), ty, stable_ptr: StablePtrId(at) })
}

fn x_expr(at: u64) -> ExprVarMemberPath {
    ExprVarMemberPath::Member {
        parent: Box::new(var_expr(0, Type::Struct(PAIR), at)),
        member_id: X,
        stable_ptr: StablePtrId(at),
        concrete_struct_id: PAIR,
        ty: Type::Other(1),
    }
}

fn by_path(exprs: Vec<ExprVarMemberPath>) -> OrderedHashMap<MemberPath, ExprVarMemberPath> {
    exprs.into_iter().map(|expr| (expr.member_path(), expr)).collect()
}

fn closure_type(types: Vec<Type>, at: u64) -> Type {
    Type::Closure(ClosureType {
        captured_types: TypeList::from_types(&types),
        wrapper_location: StablePtrId(at),
    })
}

/// Variable 0, a pair, and variable 1, a number, are in the lowered variables 0 and 1.
fn start() -> (LoweringContext, BlockBuilder) {
    let pair = vec![Member { id: X, ty: Type::Other(1) }, Member { id: Y, ty: Type::Other(2) }];
    let ctx = LoweringContext {
        db: StructTable { structs: vec![Ok(pair), Err(DiagnosticAdded)] },
        variables: vec![
            Variable { ty: Type::Struct(PAIR), location: loc(1000) },
            Variable { ty: Type::Other(7), location: loc(1000) },
        ],
        signature: Signature { extra_rets: vec![] },
        semantic_defs: HashMap::from([(0, Type::Struct(PAIR)), (1, Type::Other(7))]),
        blocks: BlocksBuilder::new(),
        diagnostics: vec![],
    };
    let mut builder = BlockBuilder::root(BlockId(0));
    builder.put_semantic(VarId(0), v(0));
    builder.put_semantic(VarId(1), v(1));
    (ctx, builder)
}

#[test]
fn a_closure_captures_values_before_snapshots() {
    let (mut ctx, mut builder) = start();
    let number = var_expr(1, Type::Other(7), 5);
    let uses = Usage {
        usage: by_path(vec![x_expr(4)]),
        changes: by_path(vec![x_expr(6)]),
        snap_usage: by_path(vec![number]),
    };
    let ty = closure_type(vec![Type::Other(1), snapshot(Type::Other(7))], 3);
    let expr = ExprClosure { stable_ptr: StablePtrId(3), ty: ty.clone() };
    let (closure, info) = builder.capture(&mut ctx, uses, &expr);

    assert_eq!(closure, usage(6, 3));
    assert_eq!(ctx.variables[6], Variable { ty, location: loc(3) });
    assert_eq!(
        builder.statements.statements,
        vec![
            Statement::StructDestructure { input: usage(0, 4), outputs: vec![v(2), v(3)] },
            Statement::Snapshot {
                input: usage(1, 5),
                output_original: v(4),
                output_snapshot: v(5),
            },
            Statement::StructConstruct { inputs: vec![usage(2, 4), usage(5, 3)], output: v(6) },
        ]
    );
    let members: Vec<(MemberPath, Type)> = info.members.into_iter().collect();
    assert_eq!(members, vec![(x_expr(0).member_path(), Type::Other(1))]);
    let snapshots: Vec<(MemberPath, Type)> = info.snapshots.into_iter().collect();
    assert_eq!(snapshots, vec![(var_path(1), snapshot(Type::Other(7)))]);
    // The value of which a snapshot was taken goes on in a new variable.
    assert_eq!(builder.semantics.entries[1], (var_path(1), Value::Var(v(4))));
}

#[test]
fn a_closure_is_taken_apart_into_what_it_captured() {
    let (mut ctx, mut builder) = start();
    let uses = Usage {
        usage: by_path(vec![x_expr(4)]),
        changes: by_path(vec![]),
        snap_usage: by_path(vec![var_expr(1, Type::Other(7), 5)]),
    };
    let ty = closure_type(vec![Type::Other(1), snapshot(Type::Other(7))], 3);
    let expr = ExprClosure { stable_ptr: StablePtrId(3), ty };
    let (closure, info) = builder.capture(&mut ctx, uses, &expr);
    let taken = builder.destructure_closure(&mut ctx, loc(8), closure.var_id, &info);
    assert_eq!(taken, vec![v(7), v(8)]);
    assert_eq!(
        builder.statements.statements[3],
        Statement::StructDestructure { input: usage(6, 8), outputs: vec![v(7), v(8)] }
    );
    // They have the types of what was captured, and the location of the closure.
    assert_eq!(ctx.variables[7], Variable { ty: Type::Other(1), location: loc(3) });
    assert_eq!(ctx.variables[8], Variable { ty: snapshot(Type::Other(7)), location: loc(3) });
}

#[test]
fn a_closure_that_uses_nothing_is_empty() {
    let (mut ctx, mut builder) = start();
    let uses =
        Usage { usage: by_path(vec![]), changes: by_path(vec![]), snap_usage: by_path(vec![]) };
    let expr = ExprClosure { stable_ptr: StablePtrId(3), ty: closure_type(vec![], 3) };
    let (closure, info) = builder.capture(&mut ctx, uses, &expr);
    assert_eq!(closure, usage(2, 3));
    assert!(info.members.is_empty());
    assert!(info.snapshots.is_empty());
    assert!(builder.destructure_closure(&mut ctx, loc(8), v(2), &info).is_empty());
}

#[test]
fn a_path_that_is_only_changed_shifts_the_snapshots() {
    let (mut ctx, mut builder) = start();
    let uses = Usage {
        usage: by_path(vec![]),
        changes: by_path(vec![x_expr(6)]),
        snap_usage: by_path(vec![var_expr(1, Type::Other(7), 5)]),
    };
    let ty = closure_type(vec![snapshot(Type::Other(7))], 3);
    let expr = ExprClosure { stable_ptr: StablePtrId(3), ty };
    let (_, info) = builder.capture(&mut ctx, uses, &expr);
    assert_eq!(info.members.len(), 1);
    assert!(info.snapshots.is_empty());
}

#[test]
fn a_snapshot_is_taken_once() {
    let (mut ctx, mut builder) = start();
    let path = || LoweredExpr::MemberPath(var_expr(1, Type::Other(7), 5), loc(6));
    let expr = LoweredExpr::Snapshot { expr: Box::new(path()), location: loc(6) };
    assert_eq!(expr.as_var_usage(&mut ctx, &mut builder), usage(3, 6));
    assert_eq!(ctx.variables[2].ty, Type::Other(7));
    assert_eq!(ctx.variables[3].ty, snapshot(Type::Other(7)));
    let again = LoweredExpr::Snapshot { expr: Box::new(path()), location: loc(7) };
    assert_eq!(again.as_var_usage(&mut ctx, &mut builder), usage(3, 7));
    assert_eq!(builder.statements.statements.len(), 1);
    // The value itself is read from where it went on.
    assert_eq!(path().as_var_usage(&mut ctx, &mut builder), usage(2, 5));
}

#[test]
fn tuples_and_snapshots_of_them_are_built() {
    let (mut ctx, mut builder) = start();
    let tuple = LoweredExpr::Tuple {
        exprs: vec![
            LoweredExpr::MemberPath(x_expr(4), loc(4)),
            LoweredExpr::AtVariable(usage(1, 5)),
        ],
        location: loc(6),
    };
    let expr = LoweredExpr::Snapshot { expr: Box::new(tuple), location: loc(7) };
    assert_eq!(expr.as_var_usage(&mut ctx, &mut builder), usage(6, 7));
    assert_eq!(
        builder.statements.statements[1..],
        [
            Statement::StructConstruct { inputs: vec![usage(2, 4), usage(1, 5)], output: v(4) },
            Statement::Snapshot {
                input: usage(4, 6),
                output_original: v(5),
                output_snapshot: v(6),
            },
        ]
    );
    let types = vec![Type::Other(1), Type::Other(7)];
    assert_eq!(ctx.variables[4].ty, Type::Tuple(TypeList::from_types(&types)));
    assert_eq!(ctx.variables[6].ty, snapshot(ctx.variables[4].ty.clone()));
}

#[test]
fn a_type_is_wrapped_in_as_many_snapshots_as_another_has() {
    let twice = snapshot(snapshot(Type::Struct(PAIR)));
    assert_eq!(wrap_in_snapshots_of(&twice, &Type::Other(1)), snapshot(snapshot(Type::Other(1))));
    assert_eq!(wrap_in_snapshots_of(&Type::Struct(PAIR), &twice), twice);
}

#[test]
fn lists_of_types_are_equal_if_their_types_are() {
    let list = |types: Vec<Type>| TypeList::from_types(&types);
    assert_eq!(list(vec![Type::Other(1), twin()]), list(vec![Type::Other(1), twin()]));
    assert_ne!(list(vec![Type::Other(1), twin()]), list(vec![twin(), Type::Other(1)]));
    assert_ne!(list(vec![twin()]), list(vec![twin(), twin()]));
    assert_eq!(list(vec![]), TypeList::Nil);
}

fn twin() -> Type {
    Type::Tuple(TypeList::from_types(&vec![Type::Other(4), Type::Other(4)]))
}
