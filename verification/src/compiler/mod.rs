//! The compiler: the instruction graph of a grammar and its passes.

pub mod character;
pub mod class;
pub mod instruction;
pub mod load;
pub mod reach;
pub mod pipeline;
pub mod series;
pub mod sorted_set;
pub mod transform;
pub mod validation;
pub mod walk;

use crate::compiler::instruction::{ExpectedId, Instruction, InstructionId, LabelId, SeriesId};
use crate::compiler::series::Series;
use crate::compiler::sorted_set::SortedSet;
use crate::store::{Store, StoreKey};
use vstd::prelude::*;

verus! {

/// The names of the grammar rules that an instruction stems from.
#[derive(Debug)]
pub struct DebugSymbol {
    pub names: SortedSet<String>,
}

impl DebugSymbol {
    /// The symbol of one rule.
    pub fn named(name: String) -> (symbol: DebugSymbol)
        ensures
            forall|k: Seq<u8>| symbol.names@.contains(k) == (k == name.key()),
    {
        let mut names = SortedSet::new();
        names.insert(name);
        DebugSymbol { names }
    }

    /// The symbol of no rule.
    pub fn anonymous() -> (symbol: DebugSymbol)
        ensures
            symbol.names@.len() == 0,
    {
        DebugSymbol { names: SortedSet::new() }
    }

    pub fn duplicate(&self) -> (copy: DebugSymbol)
        ensures
            copy.names@ == self.names@,
    {
        DebugSymbol { names: self.names.duplicate() }
    }

    /// The symbol of the rules of both.
    pub fn merge(first: &DebugSymbol, second: &DebugSymbol) -> (symbol: DebugSymbol)
        ensures
            forall|k: Seq<u8>| symbol.names@.contains(k) == (first.names@.contains(k) || second.names@.contains(k)),
    {
        if first.names.equals(&second.names) {
            return first.duplicate();
        }
        if first.names.is_empty() {
            return second.duplicate();
        }
        if second.names.is_empty() {
            return first.duplicate();
        }
        DebugSymbol { names: SortedSet::union(&first.names, &second.names) }
    }

    /// The symbol of the rules of all of `values`: the last is merged with
    /// each of the others, from the back.
    pub fn merge_many(values: &Vec<&DebugSymbol>) -> (symbol: DebugSymbol)
        ensures
            forall|k: Seq<u8>| symbol.names@.contains(k) == exists|i: int| 0 <= i < values@.len() && (#[trigger] values@[i]).names@.contains(k),
    {
        if values.len() == 0 {
            return DebugSymbol::anonymous();
        }
        let mut i = values.len() - 1;
        let mut result = values[i].duplicate();
        while i > 0
            invariant
                0 <= i < values@.len(),
                forall|k: Seq<u8>| result.names@.contains(k) == exists|j: int| i <= j < values@.len() && (#[trigger] values@[j]).names@.contains(k),
            decreases i,
        {
            i -= 1;
            let merged = DebugSymbol::merge(&result, values[i]);
            result = merged;
        }
        result
    }
}

use crate::compiler::sorted_set::ByteKeyed;

/// The passes that [`Parser::load`] runs beside those it always runs.
#[derive(Debug, Copy, Clone, PartialEq, Eq, Structural, Hash)]
pub struct CompilerSettings {
    pub merge_series: bool,
    pub character_replacement: bool,
    pub cache_insertion: bool,
    pub redundant_junction_elimination: bool,
}

impl CompilerSettings {
    /// All passes on.
    pub fn normal() -> (settings: CompilerSettings)
        ensures
            settings.merge_series && settings.character_replacement && settings.cache_insertion
                && settings.redundant_junction_elimination,
    {
        CompilerSettings {
            merge_series: true,
            character_replacement: true,
            cache_insertion: true,
            redundant_junction_elimination: true,
        }
    }
}

/// The graph of instructions of a grammar, with the series, labels and
/// expected sets that instructions refer to.
#[derive(Debug)]
pub struct Parser {
    pub(crate) start: InstructionId,
    pub(crate) instructions: Store<InstructionId, Instruction>,
    pub(crate) series: Store<SeriesId, Series>,
    pub(crate) labels: Store<LabelId, String>,
    pub(crate) expecteds: Store<ExpectedId, expected::Expected>,
    pub(crate) debug_symbols: Store<InstructionId, DebugSymbol>,
}

pub mod expected;
pub mod generation;
pub mod graphvis;

impl Parser {
    /// Whether the instruction `i` exists.
    pub closed spec fn has(&self, i: usize) -> bool {
        self.instructions.has(i)
    }

    /// The instruction `i`.
    pub closed spec fn ins(&self, i: usize) -> Instruction {
        self.instructions.value(i)
    }

    /// The number of instruction slots.
    pub closed spec fn size(&self) -> nat {
        self.instructions@.len()
    }

    /// Every instruction that `i` refers to exists.
    pub(crate) open spec fn closed_at(&self, i: usize) -> bool {
        forall|k: int| 0 <= k < self.ins(i).succs().len() ==> self.has(#[trigger] self.ins(i).succs()[k].0)
    }

    /// The start exists and every instruction refers to existing ones only.
    pub(crate) open spec fn graph_wf(&self) -> bool {
        &&& self.has(self.start.0)
        &&& forall|i: usize| self.has(i) ==> #[trigger] self.closed_at(i)
    }

    /// Every series that an instruction refers to exists.
    pub(crate) open spec fn series_wf(&self) -> bool {
        forall|i: usize| #[trigger] self.has(i) ==> match self.ins(i) {
            Instruction::Series(s) => self.series.has(s.0),
            _ => true,
        }
    }

    /// Every label that an instruction refers to exists.
    pub(crate) open spec fn labels_wf(&self) -> bool {
        forall|i: usize| #[trigger] self.has(i) ==> match self.ins(i) {
            Instruction::Label(_, l) => self.labels.has(l.0),
            _ => true,
        }
    }

    /// Every expected set that an instruction refers to exists.
    pub(crate) open spec fn expecteds_wf(&self) -> bool {
        forall|i: usize| #[trigger] self.has(i) ==> match self.ins(i) {
            Instruction::Error(_, e) => self.expecteds.has(e.0),
            _ => true,
        }
    }

    /// Every instruction has a debug symbol.
    pub(crate) open spec fn symbols_wf(&self) -> bool {
        forall|i: usize| #[trigger] self.has(i) ==> self.debug_symbols.has(i)
    }

    /// Every reference but those of error instructions to expected sets
    /// resolves.
    pub(crate) open spec fn body_wf(&self) -> bool {
        &&& self.graph_wf()
        &&& self.series_wf()
        &&& self.labels_wf()
        &&& self.symbols_wf()
    }

    /// The parser as loaded: error instructions name, in place of their
    /// expected sets, the instruction whose expected set is meant.
    pub(crate) open spec fn loaded_wf(&self) -> bool {
        &&& self.body_wf()
        &&& forall|i: usize| #[trigger] self.has(i) ==> match self.ins(i) {
            Instruction::Error(_, e) => self.has(e.0),
            _ => true,
        }
    }

    /// The parser is whole: every reference resolves.
    pub closed spec fn wf(&self) -> bool {
        &&& self.body_wf()
        &&& self.expecteds_wf()
    }

    fn new() -> (parser: Parser)
        ensures
            parser.size() == 0,
            parser.series@.len() == 0,
            parser.labels@.len() == 0,
            parser.expecteds@.len() == 0,
            parser.debug_symbols@.len() == 0,
            parser.start.0 == 0,
    {
        Parser {
            start: InstructionId(0),
            instructions: Store::new(),
            series: Store::new(),
            labels: Store::new(),
            expecteds: Store::new(),
            debug_symbols: Store::new(),
        }
    }

    /// The instruction `id`, which must exist.
    pub(crate) fn instruction(&self, id: InstructionId) -> (instruction: Instruction)
        requires
            self.has(id.0),
        ensures
            instruction == self.ins(id.0),
    {
        *self.instructions.get(id)
    }

    /// The instruction `id`, if it exists.
    pub fn instruction_at(&self, id: InstructionId) -> (instruction: Option<Instruction>)
        ensures
            instruction == if self.has(id.0) { Some(self.ins(id.0)) } else { None::<Instruction> },
    {
        if self.instructions.contains(id) {
            Some(*self.instructions.get(id))
        } else {
            None
        }
    }

    /// The number of instruction slots: every instruction's identifier is
    /// below it.
    pub fn instruction_count(&self) -> (count: usize)
        ensures
            count == self.size(),
    {
        self.instructions.next_index()
    }

    /// The identifier of the start instruction.
    pub closed spec fn start_id(&self) -> usize {
        self.start.0
    }

    /// The start instruction.
    pub fn start(&self) -> (start: InstructionId)
        ensures
            start.0 == self.start_id(),
    {
        self.start
    }
}

} // verus!
