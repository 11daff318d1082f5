use crate::store::StoreKey;
use vstd::prelude::*;

verus! {

/// The identifier of an instruction of a [`Parser`](super::Parser).
#[derive(Debug, Copy, Clone, Hash, PartialEq, Eq, Structural, PartialOrd, Ord)]
pub struct InstructionId(pub usize);

impl StoreKey for InstructionId {
    open spec fn key_index(self) -> usize {
        self.0
    }

    fn from_usize(value: usize) -> (key: Self) {
        InstructionId(value)
    }

    fn into_usize(self) -> (value: usize) {
        self.0
    }
}

/// The identifier of a label of a [`Parser`](super::Parser).
#[derive(Debug, Copy, Clone, Hash, PartialEq, Eq, Structural, PartialOrd, Ord)]
pub struct LabelId(pub usize);

impl StoreKey for LabelId {
    open spec fn key_index(self) -> usize {
        self.0
    }

    fn from_usize(value: usize) -> (key: Self) {
        LabelId(value)
    }

    fn into_usize(self) -> (value: usize) {
        self.0
    }
}

/// The identifier of a series of a [`Parser`](super::Parser).
#[derive(Debug, Copy, Clone, Hash, PartialEq, Eq, Structural, PartialOrd, Ord)]
pub struct SeriesId(pub usize);

impl StoreKey for SeriesId {
    open spec fn key_index(self) -> usize {
        self.0
    }

    fn from_usize(value: usize) -> (key: Self) {
        SeriesId(value)
    }

    fn into_usize(self) -> (value: usize) {
        self.0
    }
}

/// The identifier of an expected set of a [`Parser`](super::Parser). Before
/// the expected sets of error instructions are inferred, it names the
/// instruction whose expected set is meant.
#[derive(Debug, Copy, Clone, Hash, PartialEq, Eq, Structural, PartialOrd, Ord)]
pub struct ExpectedId(pub usize);

impl StoreKey for ExpectedId {
    open spec fn key_index(self) -> usize {
        self.0
    }

    fn from_usize(value: usize) -> (key: Self) {
        ExpectedId(value)
    }

    fn into_usize(self) -> (value: usize) {
        self.0
    }
}

/// An instruction of the parsing machine.
#[derive(Debug, Copy, Clone, Hash, PartialEq, Eq, Structural, PartialOrd, Ord)]
pub enum Instruction {
    /// Matches the first instruction, then the second.
    Sequence(InstructionId, InstructionId),
    /// Matches the first instruction; when that fails or errs, also tries
    /// the second and keeps the better result.
    Choice(InstructionId, InstructionId),
    /// Matches the first instruction; only when that fails, the second.
    FirstChoice(InstructionId, InstructionId),
    /// Succeeds without consuming input exactly when the target fails.
    NotAhead(InstructionId),
    /// Marks the match of the target as an error with an expected set.
    Error(InstructionId, ExpectedId),
    /// Labels the match of the target.
    Label(InstructionId, LabelId),
    /// Caches the result of the target in a cache slot.
    Cache(InstructionId, Option<usize>),
    /// Behaves exactly as the target.
    Delegate(InstructionId),
    /// Matches a series of character classes.
    Series(SeriesId),
}

impl Instruction {
    /// The instructions that this instruction refers to, in order.
    pub open spec fn succs(self) -> Seq<InstructionId> {
        match self {
            Instruction::Sequence(first, second)
            | Instruction::Choice(first, second)
            | Instruction::FirstChoice(first, second) => seq![first, second],
            Instruction::NotAhead(target)
            | Instruction::Error(target, _)
            | Instruction::Label(target, _)
            | Instruction::Cache(target, _)
            | Instruction::Delegate(target) => seq![target],
            Instruction::Series(_) => seq![],
        }
    }

    /// This instruction with its successors replaced, in order, by `new`.
    pub open spec fn with_succs(self, new: Seq<InstructionId>) -> Instruction {
        match self {
            Instruction::Sequence(_, _) => Instruction::Sequence(new[0], new[1]),
            Instruction::Choice(_, _) => Instruction::Choice(new[0], new[1]),
            Instruction::FirstChoice(_, _) => Instruction::FirstChoice(new[0], new[1]),
            Instruction::NotAhead(_) => Instruction::NotAhead(new[0]),
            Instruction::Error(_, expected) => Instruction::Error(new[0], expected),
            Instruction::Label(_, label) => Instruction::Label(new[0], label),
            Instruction::Cache(_, slot) => Instruction::Cache(new[0], slot),
            Instruction::Delegate(_) => Instruction::Delegate(new[0]),
            Instruction::Series(_) => self,
        }
    }

    /// The instructions that this instruction refers to, in order.
    pub fn successors(&self) -> (result: Vec<InstructionId>)
        ensures
            result@ == self.succs(),
    {
        match *self {
            Instruction::Sequence(first, second)
            | Instruction::Choice(first, second)
            | Instruction::FirstChoice(first, second) => vec![first, second],
            Instruction::NotAhead(target)
            | Instruction::Error(target, _)
            | Instruction::Label(target, _)
            | Instruction::Cache(target, _)
            | Instruction::Delegate(target) => vec![target],
            Instruction::Series(_) => vec![],
        }
    }

    /// This instruction with its successors replaced, in order, by `new`.
    pub fn with_successors(&self, new: &Vec<InstructionId>) -> (result: Instruction)
        requires
            new@.len() == self.succs().len(),
        ensures
            result == self.with_succs(new@),
            result.succs() == new@,
    {
        let result = match *self {
            Instruction::Sequence(_, _) => Instruction::Sequence(new[0], new[1]),
            Instruction::Choice(_, _) => Instruction::Choice(new[0], new[1]),
            Instruction::FirstChoice(_, _) => Instruction::FirstChoice(new[0], new[1]),
            Instruction::NotAhead(_) => Instruction::NotAhead(new[0]),
            Instruction::Error(_, expected) => Instruction::Error(new[0], expected),
            Instruction::Label(_, label) => Instruction::Label(new[0], label),
            Instruction::Cache(_, slot) => Instruction::Cache(new[0], slot),
            Instruction::Delegate(_) => Instruction::Delegate(new[0]),
            Instruction::Series(_) => *self,
        };
        assert(result.succs() =~= new@);
        result
    }
}

} // verus!
