//! The lowered form of a function: variables, statements and blocks.
use cairo_lang_utils::ordered_hash_map::OrderedHashMap;
use vstd::prelude::*;

use crate::ids::{BlockId, LocationId, VariableId};
use crate::ordered::{inserted, value_of, var_usages, var_usages_insert, var_usages_new};
use crate::types::Type;

verus! {

/// A use of a variable, and where it happens.
#[derive(Clone, Copy, Debug, PartialEq, Eq, Hash, Structural)]
pub struct VarUsage {
    pub var_id: VariableId,
    pub location: LocationId,
}

/// A lowered variable.
#[derive(Debug, PartialEq, Eq)]
pub struct Variable {
    pub ty: Type,
    pub location: LocationId,
}

/// A lowered statement.
#[derive(Debug, PartialEq, Eq)]
pub enum Statement {
    /// Defines a variable as the constant of the given number.
    Const { value: u64, output: VariableId },
    /// Calls the function of the given number.
    Call { function: u64, inputs: Vec<VarUsage>, outputs: Vec<VariableId>, location: LocationId },
    /// Builds a struct (a tuple, a closure) out of its members.
    StructConstruct { inputs: Vec<VarUsage>, output: VariableId },
    /// Takes a struct (a tuple, a closure) apart.
    StructDestructure { input: VarUsage, outputs: Vec<VariableId> },
    /// Builds an enum from the value of the variant of the given number.
    EnumConstruct { variant: u64, input: VarUsage, output: VariableId },
    /// Takes a snapshot. The value itself goes on as `output_original`.
    Snapshot { input: VarUsage, output_original: VariableId, output_snapshot: VariableId },
    /// Copies the value out of a snapshot.
    Desnap { input: VarUsage, output: VariableId },
}

/// What a statement says.
pub enum StatementView {
    Const { value: u64, output: VariableId },
    Call { function: u64, inputs: Seq<VarUsage>, outputs: Seq<VariableId>, location: LocationId },
    StructConstruct { inputs: Seq<VarUsage>, output: VariableId },
    StructDestructure { input: VarUsage, outputs: Seq<VariableId> },
    EnumConstruct { variant: u64, input: VarUsage, output: VariableId },
    Snapshot { input: VarUsage, output_original: VariableId, output_snapshot: VariableId },
    Desnap { input: VarUsage, output: VariableId },
}

impl View for Statement {
    type V = StatementView;

    open spec fn view(&self) -> StatementView {
        match *self {
            Statement::Const { value, output } => StatementView::Const { value, output },
            Statement::Call { function, inputs, outputs, location } => StatementView::Call {
                function,
                inputs: inputs@,
                outputs: outputs@,
                location,
            },
            Statement::StructConstruct { inputs, output } => StatementView::StructConstruct {
                inputs: inputs@,
                output,
            },
            Statement::StructDestructure { input, outputs } => StatementView::StructDestructure {
                input,
                outputs: outputs@,
            },
            Statement::EnumConstruct { variant, input, output } => StatementView::EnumConstruct {
                variant,
                input,
                output,
            },
            Statement::Snapshot { input, output_original, output_snapshot } => {
                StatementView::Snapshot { input, output_original, output_snapshot }
            },
            Statement::Desnap { input, output } => StatementView::Desnap { input, output },
        }
    }
}

impl Clone for Statement {
    fn clone(&self) -> (res: Self)
        ensures
            res@ == self@,
    {
        match self {
            Statement::Const { value, output } => Statement::Const {
                value: *value,
                output: *output,
            },
            Statement::Call { function, inputs, outputs, location } => Statement::Call {
                function: *function,
                inputs: inputs.clone(),
                outputs: outputs.clone(),
                location: *location,
            },
            Statement::StructConstruct { inputs, output } => Statement::StructConstruct {
                inputs: inputs.clone(),
                output: *output,
            },
            Statement::StructDestructure { input, outputs } => Statement::StructDestructure {
                input: *input,
                outputs: outputs.clone(),
            },
            Statement::EnumConstruct { variant, input, output } => Statement::EnumConstruct {
                variant: *variant,
                input: *input,
                output: *output,
            },
            Statement::Snapshot { input, output_original, output_snapshot } => Statement::Snapshot {
                input: *input,
                output_original: *output_original,
                output_snapshot: *output_snapshot,
            },
            Statement::Desnap { input, output } => Statement::Desnap {
                input: *input,
                output: *output,
            },
        }
    }
}

/// For each variable of a target block, what it is in the block that jumps there.
#[derive(Debug)]
pub struct VarRemapping {
    pub remapping: OrderedHashMap<VariableId, VarUsage>,
}

impl View for VarRemapping {
    type V = Seq<(VariableId, VarUsage)>;

    open spec fn view(&self) -> Seq<(VariableId, VarUsage)> {
        var_usages(self.remapping)
    }
}

impl VarRemapping {
    /// No variable is remapped.
    pub fn new() -> (res: Self)
        ensures
            res@ == Seq::<(VariableId, VarUsage)>::empty(),
    {
        VarRemapping { remapping: var_usages_new() }
    }

    /// Remaps `var`. Returns what it was remapped to before.
    pub fn insert(&mut self, var: VariableId, usage: VarUsage) -> (res: Option<VarUsage>)
        ensures
            final(self)@ == inserted(old(self)@, var, usage),
            res == value_of(old(self)@, var),
    {
        var_usages_insert(&mut self.remapping, var, usage)
    }
}

/// An arm of a match: the block that it leads to, and the variables that it introduces there.
#[derive(Debug, PartialEq, Eq)]
pub struct MatchArm {
    pub block_id: BlockId,
    pub var_ids: Vec<VariableId>,
}

/// A match at the end of a block.
#[derive(Debug, PartialEq, Eq)]
pub struct MatchInfo {
    pub input: VarUsage,
    pub arms: Vec<MatchArm>,
    pub location: LocationId,
}

/// How a block ends.
#[derive(Debug)]
pub enum BlockEnd {
    /// Returns from the function.
    Return(Vec<VarUsage>, LocationId),
    /// Panics with the given data.
    Panic(VarUsage),
    /// Goes on in another block.
    Goto(BlockId, VarRemapping),
    /// Goes on in one of the arms of a match.
    Match { info: MatchInfo },
}

/// What the end of a block says.
pub enum BlockEndView {
    Return(Seq<VarUsage>, LocationId),
    Panic(VarUsage),
    Goto(BlockId, Seq<(VariableId, VarUsage)>),
    Match { info: MatchInfo },
}

impl View for BlockEnd {
    type V = BlockEndView;

    open spec fn view(&self) -> BlockEndView {
        match *self {
            BlockEnd::Return(values, location) => BlockEndView::Return(values@, location),
            BlockEnd::Panic(data) => BlockEndView::Panic(data),
            BlockEnd::Goto(target, remapping) => BlockEndView::Goto(target, remapping@),
            BlockEnd::Match { info } => BlockEndView::Match { info },
        }
    }
}

/// A lowered block.
#[derive(Debug)]
pub struct Block {
    pub statements: Vec<Statement>,
    pub end: BlockEnd,
}

/// What a block says.
pub struct BlockView {
    pub statements: Seq<StatementView>,
    pub end: BlockEndView,
}

/// What a sequence of statements says.
pub open spec fn statement_views(statements: Seq<Statement>) -> Seq<StatementView> {
    statements.map_values(|statement: Statement| statement@)
}

impl View for Block {
    type V = BlockView;

    open spec fn view(&self) -> BlockView {
        BlockView { statements: statement_views(self.statements@), end: self.end@ }
    }
}

/// What a block of the table says, if it was set.
pub open spec fn block_view(block: Option<Block>) -> Option<BlockView> {
    match block {
        Some(block) => Some(block@),
        None => None,
    }
}

/// The blocks of a function. A block can be reserved before it is set.
#[derive(Debug)]
pub struct BlocksBuilder {
    pub blocks: Vec<Option<Block>>,
}

impl View for BlocksBuilder {
    type V = Seq<Option<BlockView>>;

    open spec fn view(&self) -> Seq<Option<BlockView>> {
        self.blocks@.map_values(|block: Option<Block>| block_view(block))
    }
}

impl BlocksBuilder {
    /// No blocks.
    pub fn new() -> (res: Self)
        ensures
            res@ == Seq::<Option<BlockView>>::empty(),
    {
        let res = BlocksBuilder { blocks: Vec::new() };
        assert(res@ =~= Seq::<Option<BlockView>>::empty());
        res
    }

    /// Reserves a block.
    pub fn alloc_empty(&mut self) -> (res: BlockId)
        ensures
            res == BlockId(old(self)@.len() as usize),
            res.0 == old(self)@.len(),
            final(self)@ == old(self)@.push(None),
    {
        let id = BlockId(self.blocks.len());
        self.blocks.push(None);
        assert(self@ =~= old(self)@.push(None));
        id
    }

    /// Sets a block that was reserved.
    pub fn set_block(&mut self, id: BlockId, block: Block)
        requires
            id.0 < old(self)@.len(),
        ensures
            final(self)@ == old(self)@.update(id.0 as int, Some(block@)),
    {
        self.blocks.set(id.0, Some(block));
        assert(self@ =~= old(self)@.update(id.0 as int, Some(block@)));
    }
}

} // verus!
