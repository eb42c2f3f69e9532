use std::collections::HashMap;
use std::sync::Arc;

use cairo_block_builder::context::DiagnosticAdded;
use cairo_block_builder::sierra::{
    get_function_signature, get_type_info, sierra_concrete_long_id, try_get_type_info,
    ConcreteTypeId, CycleBreakerTypeInfo, FunctionId, LoweredFunctionId, LoweredSignature,
    SierraGeneratorTypeLongId, TypeId, TypeInfo,
};
use cairo_block_builder::sierra_db::SierraGenDatabase;
use cairo_lang_sierra::ids::{ConcreteTypeId as SierraTypeId, GenericTypeId, UserTypeId};
use cairo_lang_sierra::program::{ConcreteTypeLongId, GenericArg};

fn long_id(name: &str, args: Vec<u64>) -> ConcreteTypeLongId {
    ConcreteTypeLongId {
        generic_id: GenericTypeId::from(name),
        generic_args: args
            .into_iter()
            .map(|id| GenericArg::Type(SierraTypeId::new(id)))
            .collect(),
    }
}

fn info(long_id: ConcreteTypeLongId, duplicatable: bool) -> TypeInfo {
    TypeInfo { long_id, storable: true, droppable: true, duplicatable, zero_sized: false }
}

/// The semantic types 1 to 5 have the Sierra types 101 to 105. The unit type is 9.
fn database() -> SierraGenDatabase {
    SierraGenDatabase {
        concrete_types: HashMap::new(),
        sierra_functions: HashMap::from([(7, LoweredFunctionId(70))]),
        type_ids: (1..6).map(|n| (n, ConcreteTypeId(100 + n))).collect(),
        long_ids: HashMap::new(),
        cycle_breakers: HashMap::new(),
        known: vec![],
        signatures: HashMap::from([(
            70,
            LoweredSignature {
                params: vec![TypeId(2), TypeId(3)],
                extra_rets: vec![TypeId(3)],
                return_type: TypeId(4),
                panic_return_type: TypeId(5),
            },
        )]),
        implicits: HashMap::from([(70, vec![TypeId(1)])]),
        may_panic: HashMap::from([(70, false)]),
        unsafe_panic: false,
        unit: TypeId(9),
    }
}

fn ids(numbers: Vec<u64>) -> Vec<ConcreteTypeId> {
    numbers.into_iter().map(ConcreteTypeId).collect()
}

#[test]
fn a_function_returns_its_implicits_its_references_and_its_value() {
    let signature = get_function_signature(&database(), FunctionId(7)).unwrap();
    assert_eq!(signature.param_types, ids(vec![101, 102, 103]));
    assert_eq!(signature.ret_types, ids(vec![101, 103, 104]));
}

#[test]
fn a_function_that_may_panic_returns_one_value_behind_its_implicits() {
    let mut db = database();
    db.may_panic.insert(70, true);
    let signature = get_function_signature(&db, FunctionId(7)).unwrap();
    assert_eq!(signature.param_types, ids(vec![101, 102, 103]));
    assert_eq!(signature.ret_types, ids(vec![101, 105]));
}

#[test]
fn where_panics_are_unsafe_it_does_not_matter_who_may_panic() {
    for may_panic in [Some(true), Some(false), None] {
        let mut db = database();
        db.unsafe_panic = true;
        db.may_panic = may_panic.map(|may_panic| (70, may_panic)).into_iter().collect();
        let signature = get_function_signature(&db, FunctionId(7)).unwrap();
        assert_eq!(signature.ret_types, ids(vec![101, 103, 104]));
    }
}

#[test]
fn the_unit_type_is_not_returned() {
    let mut db = database();
    // It need not have a Sierra type for that.
    db.signatures.get_mut(&70).unwrap().return_type = TypeId(9);
    let signature = get_function_signature(&db, FunctionId(7)).unwrap();
    assert_eq!(signature.ret_types, ids(vec![101, 103]));
}

#[test]
fn a_signature_needs_all_its_parts() {
    let without = |change: &dyn Fn(&mut SierraGenDatabase)| {
        let mut db = database();
        change(&mut db);
        get_function_signature(&db, FunctionId(7))
    };
    assert_eq!(
        without(&|db| {
            db.signatures.clear();
        }),
        Err(DiagnosticAdded)
    );
    assert_eq!(
        without(&|db| {
            db.implicits.clear();
        }),
        Err(DiagnosticAdded)
    );
    assert_eq!(
        without(&|db| {
            db.may_panic.clear();
        }),
        Err(DiagnosticAdded)
    );
    // An implicit, a parameter, a reference and the value without a Sierra type.
    for n in 1..5 {
        assert_eq!(
            without(&|db| {
                db.type_ids.remove(&n);
            }),
            Err(DiagnosticAdded)
        );
    }
    // The type of a panic result is not asked for where nothing panics.
    assert!(without(&|db| {
        db.type_ids.remove(&5);
    })
    .is_ok());
    // The references need a type, also where the function may panic.
    assert_eq!(
        without(&|db| {
            db.may_panic.insert(70, true);
            db.type_ids.remove(&3);
        }),
        Err(DiagnosticAdded)
    );
    assert_eq!(
        without(&|db| {
            db.may_panic.insert(70, true);
            db.type_ids.remove(&5);
        }),
        Err(DiagnosticAdded)
    );
}

#[test]
fn a_type_without_arguments_is_specialized() {
    let mut db = database();
    let u8_id = long_id("u8", vec![]);
    let regular = SierraGeneratorTypeLongId::Regular(Arc::new(u8_id.clone()));
    db.concrete_types.insert(1, regular);
    let expected = info(u8_id.clone(), true);
    assert_eq!(get_type_info(&db, ConcreteTypeId(1)), Ok(Arc::new(expected)));
    assert_eq!(sierra_concrete_long_id(&db, ConcreteTypeId(1)), Ok(Arc::new(u8_id)));
}

#[test]
fn a_type_with_arguments_is_specialized_by_their_infos() {
    let mut db = database();
    let array = long_id("Array", vec![1]);
    db.concrete_types.insert(2, SierraGeneratorTypeLongId::Regular(Arc::new(array.clone())));
    // Nothing is known of the elements yet.
    assert_eq!(try_get_type_info(&db, ConcreteTypeId(2)), None);
    db.known.push((ConcreteTypeId(1), info(long_id("u8", vec![]), true)));
    assert_eq!(
        try_get_type_info(&db, ConcreteTypeId(2)),
        Some(Ok(Arc::new(info(array.clone(), false))))
    );
    assert_eq!(get_type_info(&db, ConcreteTypeId(2)), Ok(Arc::new(info(array.clone(), false))));
    // An array of what cannot be dropped cannot be dropped.
    db.known[0].1.droppable = false;
    let expected = TypeInfo { droppable: false, ..info(array, false) };
    assert_eq!(get_type_info(&db, ConcreteTypeId(2)), Ok(Arc::new(expected)));
    // An array of what cannot be stored cannot be specialized.
    db.known[0].1.storable = false;
    assert_eq!(try_get_type_info(&db, ConcreteTypeId(2)), None);
}

#[test]
fn what_is_not_a_type_is_not_specialized() {
    let mut db = database();
    let unknown = long_id("NoSuchType", vec![]);
    db.concrete_types.insert(1, SierraGeneratorTypeLongId::Regular(Arc::new(unknown.clone())));
    assert_eq!(try_get_type_info(&db, ConcreteTypeId(1)), None);
    assert_eq!(sierra_concrete_long_id(&db, ConcreteTypeId(1)), Ok(Arc::new(unknown)));
    let too_many = long_id("u8", vec![1]);
    db.known.push((ConcreteTypeId(1), info(long_id("u8", vec![]), true)));
    db.concrete_types.insert(2, SierraGeneratorTypeLongId::Regular(Arc::new(too_many)));
    assert_eq!(try_get_type_info(&db, ConcreteTypeId(2)), None);
}

/// A long id with the given arguments.
fn with_args(name: &str, generic_args: Vec<GenericArg>) -> ConcreteTypeLongId {
    ConcreteTypeLongId { generic_id: GenericTypeId::from(name), generic_args }
}

fn ty(id: u64) -> GenericArg {
    GenericArg::Type(SierraTypeId::new(id))
}

fn value(number: i64) -> GenericArg {
    GenericArg::Value(number.into())
}

/// The info of a type of which there are no values at run time.
fn phantom(long_id: ConcreteTypeLongId) -> TypeInfo {
    TypeInfo {
        long_id,
        storable: false,
        droppable: false,
        duplicatable: false,
        zero_sized: true,
    }
}

/// The info of a type, in a database that knows the given infos.
fn specialized(
    known: Vec<(u64, TypeInfo)>,
    long_id: ConcreteTypeLongId,
) -> Option<Arc<TypeInfo>> {
    let mut db = database();
    db.known = known.into_iter().map(|(id, info)| (ConcreteTypeId(id), info)).collect();
    db.concrete_types.insert(50, SierraGeneratorTypeLongId::Regular(Arc::new(long_id)));
    try_get_type_info(&db, ConcreteTypeId(50)).map(|info| info.unwrap())
}

#[test]
fn a_range_of_integers_is_specialized() {
    let range = with_args("IntRange", vec![ty(1)]);
    for name in ["u8", "u16", "u32", "u64", "u128", "i8", "i16", "i32", "i64", "i128"] {
        let known = vec![(1, info(long_id(name, vec![]), true))];
        assert_eq!(specialized(known, range.clone()), Some(Arc::new(info(range.clone(), true))));
    }
    let bounded = with_args("BoundedInt", vec![value(-3), value(5)]);
    let known = vec![(1, info(bounded, true))];
    assert_eq!(specialized(known, range.clone()), Some(Arc::new(info(range.clone(), true))));
    // There are no ranges of other types, nor of what is not known.
    let known = vec![(1, info(long_id("felt252", vec![]), true))];
    assert_eq!(specialized(known, range.clone()), None);
    assert_eq!(specialized(vec![], range.clone()), None);
    // An integer that cannot be duplicated is none.
    let known = vec![(1, info(long_id("u8", vec![]), false))];
    assert_eq!(specialized(known, range), None);
}

#[test]
fn constants_are_specialized() {
    let constant = |info| TypeInfo { droppable: false, zero_sized: false, ..phantom(info) };
    let known = || {
        vec![
            (1, info(long_id("u8", vec![]), true)),
            (2, info(with_args("BoundedInt", vec![value(-3), value(5)]), true)),
        ]
    };
    for (id, number) in [(1, 0), (1, 255), (2, -3), (2, 5)] {
        let long_id = with_args("Const", vec![ty(id), value(number)]);
        let expected = Some(Arc::new(constant(long_id.clone())));
        assert_eq!(specialized(known(), long_id), expected);
    }
    // The value is out of the bounds of the type.
    for (id, number) in [(1, 256), (1, -1), (2, 6)] {
        assert_eq!(specialized(known(), with_args("Const", vec![ty(id), value(number)])), None);
    }
    // The bounds are out of order.
    let disordered = info(with_args("BoundedInt", vec![value(5), value(-3)]), true);
    let long_id = with_args("Const", vec![ty(1), value(0)]);
    assert_eq!(specialized(vec![(1, disordered)], long_id), None);
}

#[test]
fn the_constants_of_an_enum_name_a_variant() {
    let user_type = GenericArg::UserType(UserTypeId::from_string("E"));
    let known = || {
        vec![
            (1, info(long_id("u8", vec![]), true)),
            (2, info(with_args("Enum", vec![user_type.clone(), ty(1), ty(1)]), true)),
            (3, phantom(with_args("Const", vec![ty(1), value(7)]))),
        ]
    };
    let of_variant = |number: GenericArg| with_args("Const", vec![ty(2), number, ty(3)]);
    assert!(specialized(known(), of_variant(value(1))).is_some());
    assert_eq!(specialized(known(), of_variant(value(2))), None);
    assert_eq!(specialized(known(), of_variant(GenericArg::Value(usize::MAX.into()))), None);
    // The largest number is a constant like any other where it names no variant.
    let known = vec![(1, info(long_id("u64", vec![]), true))];
    let largest = with_args("Const", vec![ty(1), GenericArg::Value(u64::MAX.into())]);
    assert!(specialized(known, largest).is_some());
}

fn tuple(outputs: Vec<u64>) -> TypeInfo {
    let mut args = vec![GenericArg::UserType(UserTypeId::from_string("Tuple"))];
    args.extend(outputs.into_iter().map(ty));
    phantom(with_args("Struct", args))
}

#[test]
fn a_circuit_is_specialized_whatever_the_order_of_the_infos() {
    let circuit = with_args("Circuit", vec![ty(9)]);
    let mut known = vec![
        (1, phantom(with_args("CircuitInput", vec![value(0)]))),
        (2, phantom(with_args("CircuitInput", vec![value(1)]))),
        (3, phantom(with_args("AddModGate", vec![ty(1), ty(2)]))),
        (4, phantom(with_args("MulModGate", vec![ty(3), ty(3)]))),
        (5, phantom(with_args("InverseGate", vec![ty(4)]))),
        (6, phantom(with_args("SubModGate", vec![ty(5), ty(1)]))),
        (9, tuple(vec![6, 3])),
    ];
    let expected = Some(Arc::new(phantom(circuit.clone())));
    assert_eq!(specialized(known.clone(), circuit.clone()), expected);
    known.reverse();
    assert_eq!(specialized(known.clone(), circuit.clone()), expected);
    known.retain(|(id, _)| *id != 2);
    assert_eq!(specialized(known, circuit), None);
}

#[test]
fn gates_that_are_not_well_formed_make_no_circuit() {
    let circuit = with_args("Circuit", vec![ty(9)]);
    let input = |number| phantom(with_args("CircuitInput", vec![value(number)]));
    let gate = |name, args: Vec<u64>| {
        phantom(with_args(name, args.into_iter().map(ty).collect()))
    };
    // A cycle.
    let known = vec![
        (1, input(0)),
        (2, gate("AddModGate", vec![1, 3])),
        (3, gate("AddModGate", vec![1, 2])),
        (9, tuple(vec![3])),
    ];
    assert_eq!(specialized(known, circuit.clone()), None);
    // Gates with too few inputs, or with too many.
    for (name, args) in [("AddModGate", vec![1]), ("InverseGate", vec![1, 1])] {
        let known = vec![(1, input(0)), (2, gate(name, args)), (9, tuple(vec![2]))];
        assert_eq!(specialized(known, circuit.clone()), None);
    }
    // Two types for one input.
    let known = vec![
        (1, input(0)),
        (2, input(0)),
        (3, gate("AddModGate", vec![1, 2])),
        (9, tuple(vec![3])),
    ];
    assert_eq!(specialized(known, circuit.clone()), None);
    // An input that is left out.
    let known = vec![(1, input(1)), (2, gate("InverseGate", vec![1])), (9, tuple(vec![2]))];
    assert_eq!(specialized(known, circuit), None);
}

#[test]
fn infos_that_disagree_are_left_out_only_where_they_are_relied_on() {
    let mut db = database();
    let odd = info(long_id("u8", vec![]), false);
    db.known = vec![
        (ConcreteTypeId(1), odd.clone()),
        (ConcreteTypeId(2), info(long_id("u16", vec![]), true)),
        (ConcreteTypeId(2), odd.clone()),
    ];
    let range = with_args("IntRange", vec![ty(2)]);
    assert_eq!(db.infos_for(&range), vec![db.known[1].clone()]);
    assert_eq!(db.infos_for(&with_args("Array", vec![ty(2)])), db.known);
}

#[test]
fn a_cycle_breaker_is_stored_and_has_a_size() {
    let mut db = database();
    db.concrete_types.insert(4, SierraGeneratorTypeLongId::CycleBreaker(TypeId(1)));
    assert_eq!(get_type_info(&db, ConcreteTypeId(4)), Err(DiagnosticAdded));
    db.cycle_breakers.insert(1, CycleBreakerTypeInfo { duplicatable: false, droppable: true });
    assert_eq!(get_type_info(&db, ConcreteTypeId(4)), Err(DiagnosticAdded));
    assert_eq!(sierra_concrete_long_id(&db, ConcreteTypeId(4)), Err(DiagnosticAdded));
    let boxed = long_id("Box", vec![1]);
    db.long_ids.insert(1, boxed.clone());
    assert_eq!(get_type_info(&db, ConcreteTypeId(4)), Ok(Arc::new(info(boxed.clone(), false))));
    assert_eq!(sierra_concrete_long_id(&db, ConcreteTypeId(4)), Ok(Arc::new(boxed)));
    db.cycle_breakers.clear();
    assert_eq!(try_get_type_info(&db, ConcreteTypeId(4)), Some(Err(DiagnosticAdded)));
}

#[test]
fn a_phantom_type_has_no_size_and_is_not_stored() {
    let mut db = database();
    db.concrete_types.insert(5, SierraGeneratorTypeLongId::Phantom(TypeId(2)));
    assert_eq!(get_type_info(&db, ConcreteTypeId(5)), Err(DiagnosticAdded));
    assert_eq!(sierra_concrete_long_id(&db, ConcreteTypeId(5)), Err(DiagnosticAdded));
    let phantom = long_id("AddMod", vec![]);
    db.long_ids.insert(2, phantom.clone());
    let expected = TypeInfo {
        long_id: phantom.clone(),
        storable: false,
        droppable: false,
        duplicatable: false,
        zero_sized: true,
    };
    assert_eq!(get_type_info(&db, ConcreteTypeId(5)), Ok(Arc::new(expected)));
    assert_eq!(sierra_concrete_long_id(&db, ConcreteTypeId(5)), Ok(Arc::new(phantom)));
}
