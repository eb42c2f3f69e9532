//! Which lowered variables hold the semantic variables and their members.
use cairo_lang_utils::ordered_hash_map::OrderedHashMap;
use vstd::prelude::*;

use crate::context::{same_but_variables, LoweringContext, StructTable};
use crate::generators::{emitted, fresh, fresh_ids, Emitted, StatementsBuilder};
use crate::ids::{ConcreteStructId, LocationId, MemberId, VariableId};
use crate::joining::same_members;
use crate::member_path::MemberPath;
use crate::merge::topmost;
use crate::ordered::{
    collected, has_key, inserted, member_vars_entries, path_types, path_types_values, position,
    value_of,
};
use crate::recomposer::{
    deconstructed, member_ids, member_types, paired, reconstructed, BlockStructRecomposer,
};
use crate::types::Type;

verus! {

/// Where the value at a member path is.
#[derive(Debug, PartialEq, Eq)]
pub enum Value {
    /// In a lowered variable.
    Var(VariableId),
    /// Nowhere as a whole: if it is needed, it has to be put together from its members.
    Scattered { concrete_struct_id: ConcreteStructId, members: Box<Members> },
}

/// The members of a scattered value, in the order of their declaration.
#[derive(Debug, PartialEq, Eq)]
pub enum Members {
    Nil,
    Cons { member_id: MemberId, value: Box<Value>, rest: Box<Members> },
}

/// The value of a member.
pub open spec fn member_value(members: Members, id: MemberId) -> Option<Value>
    decreases members,
{
    match members {
        Members::Nil => None,
        Members::Cons { member_id, value, rest } => if member_id == id {
            Some(*value)
        } else {
            member_value(*rest, id)
        },
    }
}

/// The members after the given one got a new value.
pub open spec fn with_member(members: Members, id: MemberId, new_value: Value) -> Members
    decreases members,
{
    match members {
        Members::Nil => Members::Nil,
        Members::Cons { member_id, value, rest } => if member_id == id {
            Members::Cons { member_id, value: Box::new(new_value), rest }
        } else {
            Members::Cons {
                member_id,
                value,
                rest: Box::new(with_member(*rest, id, new_value)),
            }
        },
    }
}

/// Members that are each in a variable.
pub open spec fn members_in_vars(pairs: Seq<(MemberId, VariableId)>) -> Members
    decreases pairs.len(),
{
    if pairs.len() == 0 {
        Members::Nil
    } else {
        Members::Cons {
            member_id: pairs[0].0,
            value: Box::new(Value::Var(pairs[0].1)),
            rest: Box::new(members_in_vars(pairs.drop_first())),
        }
    }
}

/// Where the value at a path is: as the mapping has it, or, for a member, as the value of its
/// parent has it.
pub open spec fn lookup(entries: Seq<(MemberPath, Value)>, path: MemberPath) -> Option<Value>
    decreases path,
{
    match value_of(entries, path) {
        Some(value) => Some(value),
        None => match path {
            MemberPath::Var(_) => None,
            MemberPath::Member { parent, member_id, .. } => match lookup(entries, *parent) {
                Some(Value::Scattered { members, .. }) => member_value(*members, member_id),
                _ => None,
            },
        },
    }
}

/// The mapping after the value at a path that it has was replaced.
pub open spec fn stored(
    entries: Seq<(MemberPath, Value)>,
    path: MemberPath,
    value: Value,
) -> Seq<(MemberPath, Value)>
    decreases path,
{
    if has_key(entries, path) {
        inserted(entries, path, value)
    } else {
        match path {
            MemberPath::Var(_) => entries,
            MemberPath::Member { parent, member_id, .. } => match lookup(entries, *parent) {
                Some(Value::Scattered { concrete_struct_id, members }) => stored(
                    entries,
                    *parent,
                    Value::Scattered {
                        concrete_struct_id,
                        members: Box::new(with_member(*members, member_id, value)),
                    },
                ),
                _ => entries,
            },
        }
    }
}

/// The outcome of making the value at a path available.
#[verifier::ext_equal]
pub struct Broken {
    pub entries: Seq<(MemberPath, Value)>,
    pub emitted: Emitted,
    /// Whether the mapping has the path.
    pub found: bool,
    /// Whether every struct on the way could be taken apart: its members are known and its
    /// variable exists.
    pub ok: bool,
}

/// Takes the structs on the way to a path apart, until the mapping has the path itself.
pub open spec fn broken(
    db: StructTable,
    entries: Seq<(MemberPath, Value)>,
    emitted: Emitted,
    path: MemberPath,
    location: LocationId,
) -> Broken
    decreases path,
{
    if has_key(entries, path) {
        Broken { entries, emitted, found: true, ok: true }
    } else {
        match path {
            MemberPath::Var(_) => Broken { entries, emitted, found: false, ok: true },
            MemberPath::Member { parent, member_id, concrete_struct_id } => {
                let b = broken(db, entries, emitted, *parent, location);
                if !b.ok || !b.found {
                    b
                } else {
                    match lookup(b.entries, *parent) {
                        Some(Value::Var(var)) => if db.members(concrete_struct_id) is None
                            || var.0 >= b.emitted.variables.len() {
                            Broken { ok: false, ..b }
                        } else {
                            let members = scattered_members(
                                db.members(concrete_struct_id).unwrap(),
                                b.emitted,
                            );
                            Broken {
                                entries: stored(
                                    b.entries,
                                    *parent,
                                    Value::Scattered {
                                        concrete_struct_id,
                                        members: Box::new(members),
                                    },
                                ),
                                emitted: deconstructed(
                                    b.emitted,
                                    member_types(db.members(concrete_struct_id).unwrap()),
                                    var,
                                    location,
                                ),
                                found: member_value(members, member_id) is Some,
                                ok: true,
                            }
                        },
                        Some(Value::Scattered { members, .. }) => Broken {
                            found: member_value(*members, member_id) is Some,
                            ..b
                        },
                        None => Broken { found: false, ..b },
                    }
                }
            },
        }
    }
}

/// The members of a struct that is taken apart: each is in a new variable.
pub open spec fn scattered_members(
    members: Seq<crate::context::Member>,
    emitted: Emitted,
) -> Members {
    members_in_vars(
        collected(paired(member_ids(members), fresh_ids(emitted, members.len()))),
    )
}

/// What is emitted, and the variable that holds the value, once a value was put together.
pub open spec fn assembled(value: Value, emitted: Emitted, location: LocationId) -> (
    Emitted,
    VariableId,
)
    decreases value,
{
    match value {
        Value::Var(var) => (emitted, var),
        Value::Scattered { concrete_struct_id, members } => {
            let (e, vars) = assembled_members(*members, emitted, location);
            (reconstructed(e, concrete_struct_id, vars, location), fresh(e, 0))
        },
    }
}

/// What is emitted, and the variables that hold the members, once each was put together.
pub open spec fn assembled_members(
    members: Members,
    emitted: Emitted,
    location: LocationId,
) -> (Emitted, Seq<VariableId>)
    decreases members,
{
    match members {
        Members::Nil => (emitted, Seq::empty()),
        Members::Cons { value, rest, .. } => {
            let (e1, var) = assembled(*value, emitted, location);
            let (e2, vars) = assembled_members(*rest, e1, location);
            (e2, seq![var] + vars)
        },
    }
}

/// The outcome of reading a path.
#[verifier::ext_equal]
pub struct Read {
    pub entries: Seq<(MemberPath, Value)>,
    pub emitted: Emitted,
    /// The variable that holds the value, if the mapping has the path.
    pub var: Option<VariableId>,
    /// Whether every struct on the way could be taken apart.
    pub ok: bool,
}

/// Reads a path: its value is made available and, where it is scattered, put together.
pub open spec fn read(
    db: StructTable,
    entries: Seq<(MemberPath, Value)>,
    emitted: Emitted,
    path: MemberPath,
    location: LocationId,
) -> Read {
    let b = broken(db, entries, emitted, path, location);
    if !b.ok || !b.found {
        Read { entries: b.entries, emitted: b.emitted, var: None, ok: b.ok }
    } else {
        match lookup(b.entries, path) {
            Some(Value::Var(var)) => Read {
                entries: b.entries,
                emitted: b.emitted,
                var: Some(var),
                ok: true,
            },
            Some(value) => {
                let (e, var) = assembled(value, b.emitted, location);
                Read {
                    entries: stored(b.entries, path, Value::Var(var)),
                    emitted: e,
                    var: Some(var),
                    ok: true,
                }
            },
            None => Read { entries: b.entries, emitted: b.emitted, var: None, ok: true },
        }
    }
}

/// Writes a path: its value is made available and then replaced by the variable.
pub open spec fn written(
    db: StructTable,
    entries: Seq<(MemberPath, Value)>,
    emitted: Emitted,
    path: MemberPath,
    var: VariableId,
    location: LocationId,
) -> Broken {
    let b = broken(db, entries, emitted, path, location);
    if !b.ok || !b.found {
        b
    } else {
        Broken { entries: stored(b.entries, path, Value::Var(var)), ..b }
    }
}

impl Clone for Value {
    fn clone(&self) -> (res: Self)
        ensures
            res == *self,
        decreases self,
    {
        match self {
            Value::Var(var) => Value::Var(*var),
            Value::Scattered { concrete_struct_id, members } => Value::Scattered {
                concrete_struct_id: *concrete_struct_id,
                members: Box::new((&**members).clone()),
            },
        }
    }
}

impl Clone for Members {
    fn clone(&self) -> (res: Self)
        ensures
            res == *self,
        decreases self,
    {
        match self {
            Members::Nil => Members::Nil,
            Members::Cons { member_id, value, rest } => Members::Cons {
                member_id: *member_id,
                value: Box::new((&**value).clone()),
                rest: Box::new((&**rest).clone()),
            },
        }
    }
}

impl Value {
    /// Whether two values are in the same variables.
    pub fn same(&self, other: &Value) -> (res: bool)
        ensures
            res == (*self == *other),
        decreases self,
    {
        match (self, other) {
            (Value::Var(a), Value::Var(b)) => *a == *b,
            (
                Value::Scattered { concrete_struct_id: a_id, members: a },
                Value::Scattered { concrete_struct_id: b_id, members: b },
            ) => *a_id == *b_id && (&**a).same(&**b),
            _ => false,
        }
    }
}

impl Members {
    /// Whether two lists have the same members, in the same variables.
    pub fn same(&self, other: &Members) -> (res: bool)
        ensures
            res == (*self == *other),
        decreases self,
    {
        match (self, other) {
            (Members::Nil, Members::Nil) => true,
            (
                Members::Cons { member_id: a_id, value: a, rest: a_rest },
                Members::Cons { member_id: b_id, value: b, rest: b_rest },
            ) => *a_id == *b_id && (&**a).same(&**b) && (&**a_rest).same(&**b_rest),
            _ => false,
        }
    }

    /// Whether two lists are of the same members.
    pub fn alike(&self, other: &Members) -> (res: bool)
        ensures
            res == same_members(*self, *other),
        decreases self,
    {
        match (self, other) {
            (Members::Nil, Members::Nil) => true,
            (
                Members::Cons { member_id: a_id, rest: a_rest, .. },
                Members::Cons { member_id: b_id, rest: b_rest, .. },
            ) => *a_id == *b_id && (&**a_rest).alike(&**b_rest),
            _ => false,
        }
    }

    /// The value of a member.
    pub fn get(&self, id: MemberId) -> (res: Option<&Value>)
        ensures
            match res {
                Some(value) => member_value(*self, id) == Some(*value),
                None => member_value(*self, id) is None,
            },
        decreases self,
    {
        match self {
            Members::Nil => None,
            Members::Cons { member_id, value, rest } => if *member_id == id {
                Some(&**value)
            } else {
                (&**rest).get(id)
            },
        }
    }

    /// The members after the given one got a new value.
    fn with(&self, id: MemberId, new_value: Value) -> (res: Members)
        ensures
            res == with_member(*self, id, new_value),
        decreases self,
    {
        match self {
            Members::Nil => Members::Nil,
            Members::Cons { member_id, value, rest } => if *member_id == id {
                Members::Cons {
                    member_id: *member_id,
                    value: Box::new(new_value),
                    rest: Box::new((&**rest).clone()),
                }
            } else {
                Members::Cons {
                    member_id: *member_id,
                    value: Box::new((&**value).clone()),
                    rest: Box::new((&**rest).with(id, new_value)),
                }
            },
        }
    }

    /// Members that are each in a variable.
    fn in_vars(pairs: &Vec<(MemberId, VariableId)>) -> (res: Members)
        ensures
            res == members_in_vars(pairs@),
    {
        let mut list = Members::Nil;
        let mut i: usize = pairs.len();
        while i > 0
            invariant
                i <= pairs.len(),
                list == members_in_vars(pairs@.skip(i as int)),
            decreases i,
        {
            i = i - 1;
            assert(pairs@.skip(i as int).drop_first() =~= pairs@.skip(i + 1));
            list = Members::Cons {
                member_id: pairs[i].0,
                value: Box::new(Value::Var(pairs[i].1)),
                rest: Box::new(list),
            };
        }
        assert(pairs@.skip(0) =~= pairs@);
        list
    }
}

/// What a closure captured: the types of its members and of its snapshots.
#[derive(Debug)]
pub struct ClosureInfo {
    pub members: OrderedHashMap<MemberPath, Type>,
    pub snapshots: OrderedHashMap<MemberPath, Type>,
}

/// The types of what a closure captured: those of its members, then those of its snapshots.
pub open spec fn captured_types(closure_info: ClosureInfo) -> Seq<Type> {
    path_types(closure_info.members).map_values(|entry: (MemberPath, Type)| entry.1)
        + path_types(closure_info.snapshots).map_values(|entry: (MemberPath, Type)| entry.1)
}

/// Which lowered variables hold the semantic variables and their members.
#[derive(Debug)]
pub struct SemanticLoweringMapping {
    pub entries: Vec<(MemberPath, Value)>,
}

impl View for SemanticLoweringMapping {
    type V = Seq<(MemberPath, Value)>;

    open spec fn view(&self) -> Seq<(MemberPath, Value)> {
        self.entries@
    }
}

impl Clone for SemanticLoweringMapping {
    fn clone(&self) -> (res: Self)
        ensures
            res@ == self@,
    {
        let mut entries: Vec<(MemberPath, Value)> = Vec::new();
        let mut i: usize = 0;
        while i < self.entries.len()
            invariant
                i <= self.entries.len(),
                entries@ == self.entries@.take(i as int),
            decreases self.entries.len() - i,
        {
            entries.push((self.entries[i].0.clone(), self.entries[i].1.clone()));
            i = i + 1;
            assert(entries@ =~= self.entries@.take(i as int));
        }
        assert(self.entries@.take(i as int) =~= self.entries@);
        SemanticLoweringMapping { entries }
    }
}

impl SemanticLoweringMapping {
    /// The empty mapping.
    pub fn new() -> (res: Self)
        ensures
            res@ == Seq::<(MemberPath, Value)>::empty(),
    {
        SemanticLoweringMapping { entries: Vec::new() }
    }

    /// The place of the entry with the given path.
    pub fn index_of(&self, path: &MemberPath) -> (res: Option<usize>)
        ensures
            match res {
                Some(i) => i < self@.len() && position(self@, *path) == Some(i as int),
                None => position(self@, *path) is None,
            },
    {
        let mut i: usize = 0;
        while i < self.entries.len()
            invariant
                i <= self.entries.len(),
                position(self@.take(i as int), *path) is None,
            decreases self.entries.len() - i,
        {
            assert(self@.take(i + 1).drop_last() =~= self@.take(i as int));
            if self.entries[i].0 == *path {
                proof {
                    crate::ordered::lemma_position_of_prefix(self@, i + 1, *path);
                }
                return Some(i);
            }
            i = i + 1;
        }
        assert(self@.take(i as int) =~= self@);
        None
    }

    /// Introduces a path, or gives it a new variable.
    pub fn introduce(&mut self, path: MemberPath, var: VariableId)
        ensures
            final(self)@ == inserted(old(self)@, path, Value::Var(var)),
    {
        match self.index_of(&path) {
            Some(i) => {
                self.entries.set(i, (path, Value::Var(var)));
            },
            None => {
                self.entries.push((path, Value::Var(var)));
            },
        }
    }

    /// Where the value at a path is.
    pub fn lookup(&self, path: &MemberPath) -> (res: Option<&Value>)
        ensures
            match res {
                Some(value) => lookup(self@, *path) == Some(*value),
                None => lookup(self@, *path) is None,
            },
        decreases path,
    {
        match self.index_of(path) {
            Some(i) => Some(&self.entries[i].1),
            None => match path {
                MemberPath::Var(_) => None,
                MemberPath::Member { parent, member_id, .. } => match self.lookup(&**parent) {
                    Some(Value::Scattered { members, .. }) => (&**members).get(*member_id),
                    _ => None,
                },
            },
        }
    }

    /// The shortest prefix of a path that the mapping has an entry for.
    pub fn topmost_mapped_containing_member_path(&self, path: &MemberPath) -> (res: Option<
        MemberPath,
    >)
        ensures
            res == topmost(self@, *path),
        decreases path,
    {
        if let MemberPath::Member { parent, .. } = path {
            if let Some(top) = self.topmost_mapped_containing_member_path(&**parent) {
                return Some(top);
            }
        }
        if self.index_of(path).is_some() {
            Some(path.clone())
        } else {
            None
        }
    }

    /// Replaces the value at a path that the mapping has.
    fn store(&mut self, path: &MemberPath, value: Value)
        ensures
            final(self)@ == stored(old(self)@, *path, value),
        decreases path,
    {
        match self.index_of(path) {
            Some(i) => {
                self.entries.set(i, (path.clone(), value));
            },
            None => match path {
                MemberPath::Var(_) => {},
                MemberPath::Member { parent, member_id, .. } => {
                    let new_parent = match self.lookup(&**parent) {
                        Some(Value::Scattered { concrete_struct_id, members }) => Some(
                            Value::Scattered {
                                concrete_struct_id: *concrete_struct_id,
                                members: Box::new((&**members).with(*member_id, value)),
                            },
                        ),
                        _ => None,
                    };
                    if let Some(new_parent) = new_parent {
                        self.store(&**parent, new_parent);
                    }
                },
            },
        }
    }

    /// Takes the structs on the way to a path apart, until the mapping has the path itself. Returns
    /// whether it has.
    fn break_into(
        &mut self,
        ctx: &mut LoweringContext,
        statements: &mut StatementsBuilder,
        path: &MemberPath,
        location: LocationId,
    ) -> (res: bool)
        requires
            broken(
                old(ctx).db,
                old(self)@,
                emitted(*old(ctx), *old(statements)),
                *path,
                location,
            ).ok,
        ensures
            ({
                let b = broken(
                    old(ctx).db,
                    old(self)@,
                    emitted(*old(ctx), *old(statements)),
                    *path,
                    location,
                );
                &&& res == b.found
                &&& final(self)@ == b.entries
                &&& emitted(*final(ctx), *final(statements)) == b.emitted
            }),
            same_but_variables(*old(ctx), *final(ctx)),
        decreases path,
    {
        if self.index_of(path).is_some() {
            return true;
        }
        match path {
            MemberPath::Var(_) => false,
            MemberPath::Member { parent, member_id, concrete_struct_id } => {
                if !self.break_into(ctx, statements, &**parent, location) {
                    return false;
                }
                let parent_var = match self.lookup(&**parent) {
                    Some(Value::Var(var)) => *var,
                    Some(Value::Scattered { members, .. }) => {
                        return (&**members).get(*member_id).is_some();
                    },
                    None => {
                        return false;
                    },
                };
                let recomposer = BlockStructRecomposer { location };
                let vars = recomposer.deconstruct(ctx, statements, *concrete_struct_id, parent_var);
                let pairs = member_vars_entries(vars);
                let members = Members::in_vars(&pairs);
                let found = members.get(*member_id).is_some();
                self.store(
                    &**parent,
                    Value::Scattered {
                        concrete_struct_id: *concrete_struct_id,
                        members: Box::new(members),
                    },
                );
                found
            },
        }
    }

    /// Reads a path. Returns the variable that holds its value, if the mapping has the path.
    pub fn get(
        &mut self,
        ctx: &mut LoweringContext,
        statements: &mut StatementsBuilder,
        path: &MemberPath,
        location: LocationId,
    ) -> (res: Option<VariableId>)
        requires
            read(
                old(ctx).db,
                old(self)@,
                emitted(*old(ctx), *old(statements)),
                *path,
                location,
            ).ok,
        ensures
            ({
                let r = read(
                    old(ctx).db,
                    old(self)@,
                    emitted(*old(ctx), *old(statements)),
                    *path,
                    location,
                );
                &&& res == r.var
                &&& final(self)@ == r.entries
                &&& emitted(*final(ctx), *final(statements)) == r.emitted
            }),
            same_but_variables(*old(ctx), *final(ctx)),
    {
        if !self.break_into(ctx, statements, path, location) {
            return None;
        }
        let var = match self.lookup(path) {
            Some(Value::Var(var)) => {
                return Some(*var);
            },
            Some(value) => assemble_value(value, ctx, statements, location),
            None => {
                return None;
            },
        };
        self.store(path, Value::Var(var));
        Some(var)
    }

    /// Writes a path. Returns whether the mapping has the path.
    pub fn update(
        &mut self,
        ctx: &mut LoweringContext,
        statements: &mut StatementsBuilder,
        path: &MemberPath,
        var: VariableId,
        location: LocationId,
    ) -> (res: bool)
        requires
            written(
                old(ctx).db,
                old(self)@,
                emitted(*old(ctx), *old(statements)),
                *path,
                var,
                location,
            ).ok,
        ensures
            ({
                let w = written(
                    old(ctx).db,
                    old(self)@,
                    emitted(*old(ctx), *old(statements)),
                    *path,
                    var,
                    location,
                );
                &&& res == w.found
                &&& final(self)@ == w.entries
                &&& emitted(*final(ctx), *final(statements)) == w.emitted
            }),
            same_but_variables(*old(ctx), *final(ctx)),
    {
        if self.break_into(ctx, statements, path, location) {
            self.store(path, Value::Var(var));
            true
        } else {
            false
        }
    }

    /// Takes a closure apart. Returns what it captured.
    pub fn destructure_closure(
        &self,
        ctx: &mut LoweringContext,
        statements: &mut StatementsBuilder,
        location: LocationId,
        closure_var: VariableId,
        closure_info: &ClosureInfo,
    ) -> (res: Vec<VariableId>)
        requires
            closure_var.0 < old(ctx).variables@.len(),
        ensures
            res@ == fresh_ids(
                emitted(*old(ctx), *old(statements)),
                captured_types(*closure_info).len(),
            ),
            emitted(*final(ctx), *final(statements)) == deconstructed(
                emitted(*old(ctx), *old(statements)),
                captured_types(*closure_info),
                closure_var,
                location,
            ),
            same_but_variables(*old(ctx), *final(ctx)),
    {
        let mut types = path_types_values(&closure_info.members);
        let mut snapshot_types = path_types_values(&closure_info.snapshots);
        types.append(&mut snapshot_types);
        BlockStructRecomposer { location }.deconstruct_by_types(
            ctx,
            statements,
            closure_var,
            &types,
        )
    }
}

/// Puts a value together. Returns the variable that holds it.
fn assemble_value(
    value: &Value,
    ctx: &mut LoweringContext,
    statements: &mut StatementsBuilder,
    location: LocationId,
) -> (res: VariableId)
    ensures
        (emitted(*final(ctx), *final(statements)), res) == assembled(
            *value,
            emitted(*old(ctx), *old(statements)),
            location,
        ),
        same_but_variables(*old(ctx), *final(ctx)),
    decreases value,
{
    match value {
        Value::Var(var) => *var,
        Value::Scattered { concrete_struct_id, members } => {
            let mut vars: Vec<VariableId> = Vec::new();
            assemble_members(&**members, ctx, statements, location, &mut vars);
            BlockStructRecomposer { location }.reconstruct(
                ctx,
                statements,
                *concrete_struct_id,
                &vars,
            )
        },
    }
}

/// Puts members together, and adds the variables that hold them to `vars`.
fn assemble_members(
    members: &Members,
    ctx: &mut LoweringContext,
    statements: &mut StatementsBuilder,
    location: LocationId,
    vars: &mut Vec<VariableId>,
)
    ensures
        ({
            let a = assembled_members(*members, emitted(*old(ctx), *old(statements)), location);
            &&& emitted(*final(ctx), *final(statements)) == a.0
            &&& final(vars)@ == old(vars)@ + a.1
        }),
        same_but_variables(*old(ctx), *final(ctx)),
    decreases members,
{
    match members {
        Members::Nil => {
            assert(vars@ =~= old(vars)@ + Seq::<VariableId>::empty());
        },
        Members::Cons { value, rest, .. } => {
            let var = assemble_value(&**value, ctx, statements, location);
            vars.push(var);
            assemble_members(&**rest, ctx, statements, location, vars);
            assert(vars@ =~= old(vars)@ + assembled_members(
                *members,
                emitted(*old(ctx), *old(statements)),
                location,
            ).1);
        },
    }
}

} // verus!
