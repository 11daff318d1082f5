use crate::compiler::character::{Character, characters_of, nothing};
use crate::compiler::instruction::{Instruction, InstructionId, SeriesId};
use crate::compiler::series::{ClassView, Series, concatenated, never_classes, series_merge};
use crate::compiler::{CompilerSettings, DebugSymbol, Parser};
use crate::ordered_set::{OrderedSet, lists};
use crate::store::StoreKey;
use crate::compiler::reach::lemma_same_reach;
use crate::compiler::transform::trim::indices;
use crate::compiler::transform::dedup::trimmed;
use vstd::prelude::*;

verus! {

/// A rewrite of one instruction into an equivalent one.
#[derive(Debug, Copy, Clone, PartialEq, Eq, Structural)]
pub enum Rewrite {
    /// A delegate becomes its target.
    ResolveDelegate,
    /// `a / (!a b)` becomes the first choice `a // b`.
    LowerToFirstChoice,
    /// `a / !a` becomes the first choice of `a` and the empty series.
    LowerToFirstChoiceWithoutSeq,
    /// An instruction that always or never matches, consuming nothing and
    /// marking nothing, becomes the empty or the never matching series.
    ReplaceByCharacter,
    /// A sequence with a side that always matches, consuming nothing and
    /// marking nothing, becomes its other side.
    EliminateRedundantSeqs,
    /// A choice whose second branch never runs or one of whose branches
    /// never matches becomes one of its branches.
    EliminateRedundantChoices,
    /// A choice whose first branch never errs becomes a first choice.
    TranslateUnnecessaryNonFirstChoice,
    /// Two nested not-aheads around a target that consumes nothing and
    /// marks nothing become the target.
    EliminateDoubleNotAheads,
    /// A sequence of two series becomes their concatenation.
    ConcatenateSeries,
    /// A choice of two series becomes their merge, where they merge.
    MergeSeries,
    /// `(a b) c` becomes `a (b c)`.
    NormalizeSeqOrder,
    /// A choice nested first in a choice is moved second.
    NormalizeChoiceOrder,
    /// A first choice nested first in a first choice is moved second.
    NormalizeFirstChoiceOrder,
}

/// The rewrites of stage `index` of normalization, in the order in which
/// they are tried.
pub open spec fn stage_rewrites(index: usize) -> Seq<Rewrite> {
    if index == 0 {
        seq![Rewrite::ResolveDelegate, Rewrite::LowerToFirstChoice, Rewrite::LowerToFirstChoiceWithoutSeq]
    } else if index == 1 {
        seq![Rewrite::ReplaceByCharacter, Rewrite::EliminateRedundantSeqs,
            Rewrite::EliminateRedundantChoices, Rewrite::TranslateUnnecessaryNonFirstChoice,
            Rewrite::EliminateDoubleNotAheads, Rewrite::ConcatenateSeries, Rewrite::MergeSeries]
    } else if index == 2 {
        seq![Rewrite::NormalizeSeqOrder, Rewrite::NormalizeChoiceOrder, Rewrite::NormalizeFirstChoiceOrder]
    } else {
        Seq::empty()
    }
}

/// The rewrites of each stage of normalization, in the order in which they
/// are tried.
pub fn stage(index: usize) -> (rewrites: Vec<Rewrite>)
    ensures
        rewrites@ == stage_rewrites(index),
        index == 0 ==> rewrites@ == seq![Rewrite::ResolveDelegate, Rewrite::LowerToFirstChoice, Rewrite::LowerToFirstChoiceWithoutSeq],
        index == 1 ==> rewrites@ == seq![Rewrite::ReplaceByCharacter, Rewrite::EliminateRedundantSeqs,
            Rewrite::EliminateRedundantChoices, Rewrite::TranslateUnnecessaryNonFirstChoice,
            Rewrite::EliminateDoubleNotAheads, Rewrite::ConcatenateSeries, Rewrite::MergeSeries],
        index == 2 ==> rewrites@ == seq![Rewrite::NormalizeSeqOrder, Rewrite::NormalizeChoiceOrder, Rewrite::NormalizeFirstChoiceOrder],
        index > 2 ==> rewrites@.len() == 0,
{
    if index == 0 {
        vec![Rewrite::ResolveDelegate, Rewrite::LowerToFirstChoice, Rewrite::LowerToFirstChoiceWithoutSeq]
    } else if index == 1 {
        vec![Rewrite::ReplaceByCharacter, Rewrite::EliminateRedundantSeqs, Rewrite::EliminateRedundantChoices,
            Rewrite::TranslateUnnecessaryNonFirstChoice, Rewrite::EliminateDoubleNotAheads,
            Rewrite::ConcatenateSeries, Rewrite::MergeSeries]
    } else if index == 2 {
        vec![Rewrite::NormalizeSeqOrder, Rewrite::NormalizeChoiceOrder, Rewrite::NormalizeFirstChoiceOrder]
    } else {
        Vec::new()
    }
}

/// An instruction that claims nothing: it cannot fail, consume input, err
/// or label.
pub open spec fn inert(c: Character) -> bool {
    !c.fallible && !c.antitransparent && !c.error_prone && !c.label_prone
}

impl Parser {
    /// Everything that `x` refers to exists.
    pub(crate) open spec fn instruction_ok(&self, x: Instruction) -> bool {
        &&& forall|k: int| 0 <= k < x.succs().len() ==> self.has(#[trigger] x.succs()[k].0)
        &&& match x {
            Instruction::Series(s) => self.series.has(s.0),
            Instruction::Label(_, l) => self.labels.has(l.0),
            Instruction::Error(_, e) => self.expecteds.has(e.0),
            _ => true,
        }
    }

    /// `new` holds everything that `old` holds, unchanged.
    pub(crate) open spec fn grows_from(&self, old: &Parser) -> bool {
        &&& self.start == old.start
        &&& forall|i: usize| #[trigger] old.has(i) ==> self.has(i) && self.ins(i) == old.ins(i)
        &&& forall|i: usize| #[trigger] old.debug_symbols.has(i) ==> self.debug_symbols.has(i)
        &&& forall|s: usize| #[trigger] old.series.has(s) ==> self.series.has(s) && self.series.value(s) == old.series.value(s)
        &&& forall|l: usize| #[trigger] old.labels.has(l) ==> self.labels.has(l) && self.labels.value(l) == old.labels.value(l)
        &&& forall|e: usize| #[trigger] old.expecteds.has(e) ==> self.expecteds.has(e) && self.expecteds.value(e) == old.expecteds.value(e)
    }
}

pub(crate) proof fn lemma_ok_of_wf(p: &Parser, i: usize)
    requires
        p.wf(),
        p.has(i),
    ensures
        p.instruction_ok(p.ins(i)),
{
    assert(p.closed_at(i));
}

pub(crate) proof fn lemma_ok_grows(old: &Parser, new: &Parser, x: Instruction)
    requires
        old.instruction_ok(x),
        new.grows_from(old),
    ensures
        new.instruction_ok(x),
{
    assert forall|k: int| 0 <= k < x.succs().len() implies new.has(#[trigger] x.succs()[k].0) by {
        assert(old.has(x.succs()[k].0));
    }
}

impl Parser {
    /// Appends `instruction`, with the debug symbol of instruction `origin`.
    pub(crate) fn add_instruction(&mut self, instruction: Instruction, origin: InstructionId) -> (id: InstructionId)
        requires
            old(self).wf(),
            old(self).size() < usize::MAX - 1,
            old(self).instruction_ok(instruction),
            old(self).has(origin.0),
        ensures
            final(self).wf(),
            final(self).grows_from(old(self)),
            id.0 == old(self).size(),
            final(self).has(id.0),
            final(self).ins(id.0) == instruction,
            final(self).size() == old(self).size() + 1,
            final(self).series == old(self).series,
            forall|i: usize| #[trigger] final(self).has(i) == (old(self).has(i) || i == id.0),
    {
        proof {
            assert(self.has(origin.0));
            assert(self.debug_symbols.has(origin.0));
        }
        let symbol = self.debug_symbols.get(origin).duplicate();
        let ghost before = *self;
        let id = self.insert(instruction, symbol);
        proof {
            assert forall|i: usize| #[trigger] before.has(i) implies self.has(i) && self.ins(i) == before.ins(i) by {
                assert(self.instructions@[i as int] == before.instructions@[i as int]);
            }
            assert forall|i: usize| #[trigger] before.debug_symbols.has(i) implies self.debug_symbols.has(i) by {
                if i != id.0 {
                    assert(self.debug_symbols@[i as int] == before.debug_symbols@[i as int]);
                }
            }
            assert(self.has(id.0));
            assert forall|i: usize| self.has(i) implies #[trigger] self.closed_at(i) by {
                if i == id.0 {
                    assert forall|k: int| 0 <= k < instruction.succs().len() implies self.has(#[trigger] instruction.succs()[k].0) by {
                        assert(before.has(instruction.succs()[k].0));
                    }
                } else {
                    assert(before.has(i));
                    assert(before.closed_at(i));
                    assert forall|k: int| 0 <= k < before.ins(i).succs().len() implies self.has(#[trigger] before.ins(i).succs()[k].0) by {
                        assert(before.has(before.ins(i).succs()[k].0));
                    }
                }
            }
            assert forall|i: usize| #[trigger] self.has(i) implies self.debug_symbols.has(i) by {
                if i != id.0 {
                    assert(before.has(i));
                    assert(before.debug_symbols.has(i));
                    assert(self.debug_symbols@[i as int] == before.debug_symbols@[i as int]);
                }
            }
            assert forall|i: usize| #[trigger] self.has(i) implies match self.ins(i) {
                Instruction::Series(s) => self.series.has(s.0),
                _ => true,
            } by {
                if i != id.0 {
                    assert(before.has(i));
                }
            }
            assert forall|i: usize| #[trigger] self.has(i) implies match self.ins(i) {
                Instruction::Label(_, l) => self.labels.has(l.0),
                _ => true,
            } by {
                if i != id.0 {
                    assert(before.has(i));
                }
            }
            assert forall|i: usize| #[trigger] self.has(i) implies match self.ins(i) {
                Instruction::Error(_, e) => self.expecteds.has(e.0),
                _ => true,
            } by {
                if i != id.0 {
                    assert(before.has(i));
                }
            }
        }
        proof {
            assert(self.wf());
            assert forall|i: usize| #[trigger] before.has(i) implies self.has(i) && self.ins(i) == before.ins(i) by {}
            assert forall|x: usize| #[trigger] before.series.has(x) implies self.series.has(x) && self.series.value(x) == before.series.value(x) by {}
            assert forall|x: usize| #[trigger] before.labels.has(x) implies self.labels.has(x) && self.labels.value(x) == before.labels.value(x) by {}
            assert forall|x: usize| #[trigger] before.expecteds.has(x) implies self.expecteds.has(x) && self.expecteds.value(x) == before.expecteds.value(x) by {}
        }
        id
    }

    /// Replaces instruction `id` by `new`.
    pub(crate) fn replace_instruction(&mut self, id: InstructionId, new: Instruction)
        requires
            old(self).wf(),
            old(self).has(id.0),
            old(self).instruction_ok(new),
        ensures
            final(self).wf(),
            final(self).start == old(self).start,
            final(self).ins(id.0) == new,
            forall|i: usize| #[trigger] final(self).has(i) == old(self).has(i),
            forall|i: usize| #[trigger] final(self).has(i) && i != id.0 ==> final(self).ins(i) == old(self).ins(i),
            final(self).series == old(self).series,
            final(self).labels == old(self).labels,
            final(self).expecteds == old(self).expecteds,
            final(self).debug_symbols == old(self).debug_symbols,
            final(self).size() == old(self).size(),
    {
        let ghost before = *self;
        let size = self.instructions.next_index();
        assert(id.0 < size);
        self.instructions.set(id, new);
        proof {
            assert forall|i: usize| #[trigger] self.has(i) == before.has(i) by {}
            assert forall|i: usize| self.has(i) implies #[trigger] self.closed_at(i) by {
                if i != id.0 {
                    assert(before.closed_at(i));
                    assert(self.ins(i) == before.ins(i));
                }
            }
            assert forall|i: usize| #[trigger] self.has(i) implies match self.ins(i) {
                Instruction::Series(s) => self.series.has(s.0),
                _ => true,
            } by {
                assert(before.has(i));
            }
            assert forall|i: usize| #[trigger] self.has(i) implies match self.ins(i) {
                Instruction::Label(_, l) => self.labels.has(l.0),
                _ => true,
            } by {
                assert(before.has(i));
            }
            assert forall|i: usize| #[trigger] self.has(i) implies match self.ins(i) {
                Instruction::Error(_, e) => self.expecteds.has(e.0),
                _ => true,
            } by {
                assert(before.has(i));
            }
            assert forall|i: usize| #[trigger] self.has(i) implies self.debug_symbols.has(i) by {
                assert(before.has(i));
            }
            assert(self.wf());
        }
    }
}

/// The state of a run of rewrites.
pub(crate) struct Normalizer {
    pub(crate) parser: Parser,
    pub(crate) settings: CompilerSettings,
    pub(crate) queue: OrderedSet<InstructionId>,
    pub(crate) predecessors: Vec<Vec<InstructionId>>,
    pub(crate) characters: Vec<Character>,
}

impl Normalizer {
    pub(crate) open spec fn inv(&self) -> bool {
        &&& self.parser.wf()
        &&& self.parser.size() <= usize::MAX
        &&& self.characters@.len() == self.parser.size()
        &&& self.predecessors@.len() == self.parser.size()
        &&& forall|j: int, m: int| 0 <= j < self.predecessors@.len() && 0 <= m < self.predecessors@[j]@.len()
            ==> self.parser.has((#[trigger] self.predecessors@[j]@[m]).0)
        &&& forall|k: int| 0 <= k < self.queue@.len() ==> self.parser.has((#[trigger] self.queue@[k]).0)
    }

    /// The parser has room for one more instruction and one more series.
    pub(crate) open spec fn roomy(&self) -> bool {
        &&& self.parser.size() < usize::MAX - 1
        &&& self.parser.series@.len() < usize::MAX - 2
    }

    /// Whether the parser has room for one more instruction and one more
    /// series.
    fn has_room(&self) -> (room: bool)
        ensures
            room == self.roomy(),
    {
        self.parser.instructions.next_index() < usize::MAX - 1 && self.parser.series.next_index() < usize::MAX - 2
    }

    /// The instruction `id` of the parser.
    fn get(&self, id: InstructionId) -> (instruction: Instruction)
        requires
            self.parser.has(id.0),
        ensures
            instruction == self.parser.ins(id.0),
    {
        self.parser.instruction(id)
    }

    /// The character of instruction `id`.
    fn character(&self, id: InstructionId) -> (character: Character)
        requires
            self.inv(),
            self.parser.has(id.0),
        ensures
            character == self.characters@[id.0 as int],
    {
        self.characters[id.0]
    }

    /// A new series.
    fn insert_series(&mut self, series: Series) -> (id: SeriesId)
        requires
            old(self).inv(),
            old(self).parser.series@.len() < usize::MAX - 1,
        ensures
            final(self).inv(),
            final(self).settings == old(self).settings,
            final(self).parser.grows_from(&old(self).parser),
            final(self).parser.series.has(id.0),
            final(self).parser.series.value(id.0)@ == series@,
            final(self).parser.size() == old(self).parser.size(),
            final(self).parser.series@.len() == old(self).parser.series@.len() + 1,
    {
        let id: SeriesId = self.parser.series.insert(series);
        proof {
            assert(self.parser.instructions == old(self).parser.instructions);
            assert forall|i: usize| #[trigger] self.parser.has(i) implies match self.parser.ins(i) {
                Instruction::Series(s) => self.parser.series.has(s.0),
                _ => true,
            } by {
                assert(old(self).parser.has(i));
            }
            assert forall|i: usize| self.parser.has(i) implies #[trigger] self.parser.closed_at(i) by {
                assert(old(self).parser.closed_at(i));
            }
            assert(self.parser.graph_wf());
            assert forall|i: usize| #[trigger] self.parser.has(i) implies match self.parser.ins(i) {
                Instruction::Label(_, l) => self.parser.labels.has(l.0),
                _ => true,
            } by {
                assert(old(self).parser.has(i));
            }
            assert forall|i: usize| #[trigger] self.parser.has(i) implies match self.parser.ins(i) {
                Instruction::Error(_, e) => self.parser.expecteds.has(e.0),
                _ => true,
            } by {
                assert(old(self).parser.has(i));
            }
            assert forall|i: usize| #[trigger] self.parser.has(i) implies self.parser.debug_symbols.has(i) by {
                assert(old(self).parser.has(i));
            }
            assert(self.parser.body_wf());
            assert(self.parser.wf());
        }
        id
    }

    /// A new instruction with the debug symbol of instruction `origin`,
    /// whose predecessors are `predecessors`.
    fn insert(&mut self, instruction: Instruction, origin: InstructionId, predecessors: Vec<InstructionId>) -> (id: InstructionId)
        requires
            old(self).inv(),
            old(self).parser.size() < usize::MAX - 1,
            old(self).parser.instruction_ok(instruction),
            old(self).parser.has(origin.0),
            forall|m: int| 0 <= m < predecessors@.len() ==> old(self).parser.has((#[trigger] predecessors@[m]).0),
        ensures
            final(self).inv(),
            final(self).settings == old(self).settings,
            final(self).parser.grows_from(&old(self).parser),
            id.0 == old(self).parser.size(),
            final(self).parser.has(id.0),
            final(self).parser.ins(id.0) == instruction,
            final(self).parser.size() == old(self).parser.size() + 1,
            final(self).parser.series@.len() == old(self).parser.series@.len(),
    {
        let id = self.parser.add_instruction(instruction, origin);
        self.queue.push(id);
        let ghost queue_after = self.queue@;
        let ghost after_parser = self.parser;
        let ghost after_characters = self.characters;
        self.predecessors.push(predecessors);
        let successors = instruction.successors();
        let mut k: usize = 0;
        while k < successors.len()
            invariant
                k <= successors@.len(),
                successors@ == instruction.succs(),
                self.parser.wf(),
                self.parser.has(id.0),
                self.predecessors@.len() == self.parser.size(),
                forall|j: int, m: int| 0 <= j < self.predecessors@.len() && 0 <= m < self.predecessors@[j]@.len()
                    ==> self.parser.has((#[trigger] self.predecessors@[j]@[m]).0),
                forall|m: int| 0 <= m < successors@.len() ==> self.parser.has((#[trigger] successors@[m]).0),
                self.characters@.len() + 1 == self.parser.size(),
                self.queue@ == queue_after,
                self.parser == after_parser,
                self.characters == after_characters,
                self.settings == old(self).settings,
            decreases successors@.len() - k,
        {
            let s = successors[k].0;
            let ghost before_preds = self.predecessors@;
            self.predecessors.push(Vec::new());
            let mut list = self.predecessors.swap_remove(s);
            list.push(id);
            self.predecessors.set(s, list);
            proof {
                assert forall|j: int, m: int| 0 <= j < self.predecessors@.len() && 0 <= m < self.predecessors@[j]@.len()
                    implies self.parser.has((#[trigger] self.predecessors@[j]@[m]).0) by {
                    if j != s {
                        assert(self.predecessors@[j] == before_preds[j]);
                    } else if m < before_preds[j]@.len() {
                        assert(self.predecessors@[j]@[m] == before_preds[j]@[m]);
                    }
                }
            }
            k += 1;
        }
        self.characters.push(nothing_character());
        let c = self.parser.evaluate_character(id, &self.characters);
        self.characters.set(id.0, c);
        proof {
            assert forall|k2: int| 0 <= k2 < self.queue@.len() implies self.parser.has((#[trigger] self.queue@[k2]).0) by {
                if self.queue@[k2] != id {
                    assert(old(self).queue@.contains(self.queue@[k2]));
                }
            }
        }
        id
    }
}

/// The rewrites that only look at the parser, its characters and the
/// settings, and add nothing to the parser.
pub(crate) open spec fn pure_rewrite(p: &Parser, chars: Seq<Character>, settings: CompilerSettings, rewrite: Rewrite, instruction: Instruction) -> Option<Instruction> {
    match rewrite {
        Rewrite::ResolveDelegate => match instruction {
            Instruction::Delegate(target) => Some(p.ins(target.0)),
            _ => None,
        },
        Rewrite::LowerToFirstChoice => match instruction {
            Instruction::Choice(first, second) | Instruction::FirstChoice(first, second) => match p.ins(second.0) {
                Instruction::Sequence(second_first, second_second) => match p.ins(second_first.0) {
                    Instruction::NotAhead(target) => if first == target {
                        Some(Instruction::FirstChoice(first, second_second))
                    } else {
                        None
                    },
                    _ => None,
                },
                _ => None,
            },
            _ => None,
        },
        Rewrite::EliminateRedundantSeqs => if !settings.redundant_junction_elimination {
            None
        } else {
            match instruction {
                Instruction::Sequence(left, right) => if inert(chars[left.0 as int]) {
                    Some(p.ins(right.0))
                } else if inert(chars[right.0 as int]) {
                    Some(p.ins(left.0))
                } else {
                    None
                },
                _ => None,
            }
        },
        Rewrite::EliminateRedundantChoices => if !settings.redundant_junction_elimination {
            None
        } else {
            match instruction {
                Instruction::Choice(left, right) | Instruction::FirstChoice(left, right) => {
                    let lc = chars[left.0 as int];
                    let rc = chars[right.0 as int];
                    let right_reachable = if instruction is Choice { lc.fallible || lc.error_prone } else { lc.fallible };
                    if !right_reachable {
                        Some(p.ins(left.0))
                    } else if !lc.can_match() {
                        Some(p.ins(right.0))
                    } else if !rc.can_match() {
                        Some(p.ins(left.0))
                    } else {
                        None
                    }
                },
                _ => None,
            }
        },
        Rewrite::TranslateUnnecessaryNonFirstChoice => match instruction {
            Instruction::Choice(left, right) => if !chars[left.0 as int].error_prone {
                Some(Instruction::FirstChoice(left, right))
            } else {
                None
            },
            _ => None,
        },
        Rewrite::EliminateDoubleNotAheads => match instruction {
            Instruction::NotAhead(target) => match p.ins(target.0) {
                Instruction::NotAhead(inner) => {
                    let c = chars[inner.0 as int];
                    if !c.antitransparent && !c.label_prone && !c.error_prone {
                        Some(p.ins(inner.0))
                    } else {
                        None
                    }
                },
                _ => None,
            },
            _ => None,
        },
        _ => None,
    }
}

/// The rewrites that turn a choice into a first choice keep the order of
/// its branches: a choice whose first branch cannot fail with an error
/// becomes the first choice of the same first and second branch, and
/// nothing else; lowering `first / !first second` gives the first choice
/// of `first` then `second`; lowering without a sequence keeps the first
/// branch first.
pub(crate) proof fn lemma_first_choice_order(
    p: &Parser,
    new: &Parser,
    chars: Seq<Character>,
    settings: CompilerSettings,
    id: usize,
    instruction: Instruction,
    x: Instruction,
)
    ensures
        forall|left: InstructionId, right: InstructionId| instruction == Instruction::Choice(left, right)
            && !chars[left.0 as int].error_prone
            ==> pure_rewrite(p, chars, settings, Rewrite::TranslateUnnecessaryNonFirstChoice, instruction)
                == Some(Instruction::FirstChoice(left, right)),
        forall|left: InstructionId, right: InstructionId| instruction == Instruction::Choice(left, right)
            && chars[left.0 as int].error_prone
            ==> pure_rewrite(p, chars, settings, Rewrite::TranslateUnnecessaryNonFirstChoice, instruction) is None,
        !(instruction is Choice) ==> pure_rewrite(p, chars, settings, Rewrite::TranslateUnnecessaryNonFirstChoice, instruction) is None,
        pure_rewrite(p, chars, settings, Rewrite::LowerToFirstChoice, instruction) == Some(x) ==> ((instruction is Choice || instruction is FirstChoice)
            && (p.ins(instruction.succs()[1].0) matches Instruction::Sequence(guard, rest)
            && p.ins(guard.0) == Instruction::NotAhead(instruction.succs()[0])
            && x == Instruction::FirstChoice(instruction.succs()[0], rest))),
        adding_result(p, new, chars, id, Rewrite::LowerToFirstChoiceWithoutSeq, instruction, x) ==> ((instruction is Choice || instruction is FirstChoice)
            && (x matches Instruction::FirstChoice(first, _) && first == instruction.succs()[0])),
{
    if pure_rewrite(p, chars, settings, Rewrite::LowerToFirstChoice, instruction) == Some(x) {
        match instruction {
            Instruction::Choice(first, second) | Instruction::FirstChoice(first, second) => {
                match p.ins(second.0) {
                    Instruction::Sequence(guard, rest) => {
                        assert(p.ins(second.0) == Instruction::Sequence(guard, rest));
                    },
                    _ => {},
                }
            },
            _ => {},
        }
    }
    if adding_result(p, new, chars, id, Rewrite::LowerToFirstChoiceWithoutSeq, instruction, x) {
        match instruction {
            Instruction::Choice(first, second) | Instruction::FirstChoice(first, second) => {
                match x {
                    Instruction::FirstChoice(f, e) => {
                        assert(x == Instruction::FirstChoice(first, e));
                    },
                    _ => {},
                }
            },
            _ => {},
        }
    }
}

/// What the other rewrites that add nothing give. Resolving a delegate
/// gives the instruction of its target. Eliminating a redundant sequence
/// drops a part that always matches nothing without effect and gives the
/// other. Eliminating a redundant choice gives the first branch when the
/// second is never tried or can never match, and the second when the
/// first can never match. Eliminating a double not-ahead gives the
/// instruction inside both, when that cannot match without consuming
/// input, label or err.
pub(crate) proof fn lemma_pure_rewrite_results(
    p: &Parser,
    chars: Seq<Character>,
    settings: CompilerSettings,
    rewrite: Rewrite,
    instruction: Instruction,
    x: Instruction,
)
    requires
        pure_rewrite(p, chars, settings, rewrite, instruction) == Some(x),
    ensures
        rewrite is ResolveDelegate ==> instruction is Delegate && x == p.ins(instruction.succs()[0].0),
        rewrite is EliminateRedundantSeqs ==> settings.redundant_junction_elimination && instruction is Sequence
            && ((x == p.ins(instruction.succs()[1].0) && inert(chars[instruction.succs()[0].0 as int]))
                || (x == p.ins(instruction.succs()[0].0) && inert(chars[instruction.succs()[1].0 as int]))),
        rewrite is EliminateRedundantChoices ==> settings.redundant_junction_elimination
            && (instruction is Choice || instruction is FirstChoice)
            && ((x == p.ins(instruction.succs()[0].0)
                    && ((!chars[instruction.succs()[0].0 as int].fallible
                        && !(instruction is Choice && chars[instruction.succs()[0].0 as int].error_prone))
                        || !chars[instruction.succs()[1].0 as int].can_match()))
                || (x == p.ins(instruction.succs()[1].0) && !chars[instruction.succs()[0].0 as int].can_match())),
        rewrite is EliminateDoubleNotAheads ==> instruction is NotAhead
            && (p.ins(instruction.succs()[0].0) matches Instruction::NotAhead(inner)
                && x == p.ins(inner.0)
                && !chars[inner.0 as int].antitransparent && !chars[inner.0 as int].label_prone
                && !chars[inner.0 as int].error_prone),
{
}

/// Reassociating a junction keeps its three parts in their order: a
/// sequence, choice or first choice `(a b) c` becomes the junction of the
/// same kind `a (b c)`.
pub(crate) proof fn lemma_reassociation_order(
    p: &Parser,
    new: &Parser,
    chars: Seq<Character>,
    id: usize,
    rewrite: Rewrite,
    instruction: Instruction,
    x: Instruction,
)
    requires
        rewrite is NormalizeSeqOrder || rewrite is NormalizeChoiceOrder || rewrite is NormalizeFirstChoiceOrder,
        adding_result(p, new, chars, id, rewrite, instruction, x),
    ensures
        instruction.succs().len() == 2,
        p.ins(instruction.succs()[0].0).succs().len() == 2,
        x.succs().len() == 2,
        x.succs()[0] == p.ins(instruction.succs()[0].0).succs()[0],
        new.ins(x.succs()[1].0).succs() == seq![p.ins(instruction.succs()[0].0).succs()[1], instruction.succs()[1]],
        rewrite is NormalizeSeqOrder ==> instruction is Sequence && p.ins(instruction.succs()[0].0) is Sequence
            && x is Sequence && new.ins(x.succs()[1].0) is Sequence,
        rewrite is NormalizeChoiceOrder ==> instruction is Choice && p.ins(instruction.succs()[0].0) is Choice
            && x is Choice && new.ins(x.succs()[1].0) is Choice,
        rewrite is NormalizeFirstChoiceOrder ==> instruction is FirstChoice && p.ins(instruction.succs()[0].0) is FirstChoice
            && x is FirstChoice && new.ins(x.succs()[1].0) is FirstChoice,
{
}

/// Whether `rewrite` adds to the parser.
pub open spec fn is_pure(rewrite: Rewrite) -> bool {
    match rewrite {
        Rewrite::ResolveDelegate | Rewrite::LowerToFirstChoice | Rewrite::EliminateRedundantSeqs
        | Rewrite::EliminateRedundantChoices | Rewrite::TranslateUnnecessaryNonFirstChoice
        | Rewrite::EliminateDoubleNotAheads => true,
        _ => false,
    }
}

impl Normalizer {
    /// Applies a rewrite that adds nothing to the parser.
    fn pure(&self, rewrite: Rewrite, id: InstructionId, instruction: Instruction) -> (result: Option<Instruction>)
        requires
            self.inv(),
            is_pure(rewrite),
            self.parser.has(id.0),
            instruction == self.parser.ins(id.0),
        ensures
            result == pure_rewrite(&self.parser, self.characters@, self.settings, rewrite, instruction),
            result matches Some(x) ==> self.parser.instruction_ok(x),
    {
        proof {
            assert(self.parser.closed_at(id.0));
            match instruction {
                Instruction::Sequence(a, b) | Instruction::Choice(a, b) | Instruction::FirstChoice(a, b) => {
                    assert(instruction.succs()[0] == a);
                    assert(instruction.succs()[1] == b);
                    lemma_ok_of_wf(&self.parser, a.0);
                    lemma_ok_of_wf(&self.parser, b.0);
                },
                Instruction::NotAhead(t) | Instruction::Delegate(t) => {
                    assert(instruction.succs()[0] == t);
                    lemma_ok_of_wf(&self.parser, t.0);
                },
                _ => {},
            }
        }
        match rewrite {
            Rewrite::ResolveDelegate => match instruction {
                Instruction::Delegate(target) => Some(self.get(target)),
                _ => None,
            },
            Rewrite::LowerToFirstChoice => match instruction {
                Instruction::Choice(first, second) | Instruction::FirstChoice(first, second) => match self.get(second) {
                    Instruction::Sequence(second_first, second_second) => {
                        proof {
                            assert(self.parser.closed_at(second.0));
                            assert(self.parser.ins(second.0).succs()[0] == second_first);
                            assert(self.parser.ins(second.0).succs()[1] == second_second);
                        }
                        match self.get(second_first) {
                            Instruction::NotAhead(target) => if first == target {
                                Some(Instruction::FirstChoice(first, second_second))
                            } else {
                                None
                            },
                            _ => None,
                        }
                    },
                    _ => None,
                },
                _ => None,
            },
            Rewrite::EliminateRedundantSeqs => {
                if !self.settings.redundant_junction_elimination {
                    return None;
                }
                match instruction {
                    Instruction::Sequence(left, right) => {
                        let lc = self.character(left);
                        let rc = self.character(right);
                        if !lc.fallible && !lc.antitransparent && !lc.error_prone && !lc.label_prone {
                            Some(self.get(right))
                        } else if !rc.fallible && !rc.antitransparent && !rc.error_prone && !rc.label_prone {
                            Some(self.get(left))
                        } else {
                            None
                        }
                    },
                    _ => None,
                }
            },
            Rewrite::EliminateRedundantChoices => {
                if !self.settings.redundant_junction_elimination {
                    return None;
                }
                match instruction {
                    Instruction::Choice(left, right) | Instruction::FirstChoice(left, right) => {
                        let lc = self.character(left);
                        let rc = self.character(right);
                        let right_reachable = match instruction {
                            Instruction::Choice(_, _) => lc.fallible || lc.error_prone,
                            _ => lc.fallible,
                        };
                        if !right_reachable {
                            Some(self.get(left))
                        } else if !lc.possible() {
                            Some(self.get(right))
                        } else if !rc.possible() {
                            Some(self.get(left))
                        } else {
                            None
                        }
                    },
                    _ => None,
                }
            },
            Rewrite::TranslateUnnecessaryNonFirstChoice => match instruction {
                Instruction::Choice(left, right) => if !self.character(left).error_prone {
                    Some(Instruction::FirstChoice(left, right))
                } else {
                    None
                },
                _ => None,
            },
            Rewrite::EliminateDoubleNotAheads => match instruction {
                Instruction::NotAhead(target) => match self.get(target) {
                    Instruction::NotAhead(inner) => {
                        proof {
                            assert(self.parser.closed_at(target.0));
                            assert(self.parser.ins(target.0).succs()[0] == inner);
                            lemma_ok_of_wf(&self.parser, inner.0);
                        }
                        let c = self.character(inner);
                        if !c.antitransparent && !c.label_prone && !c.error_prone {
                            Some(self.get(inner))
                        } else {
                            None
                        }
                    },
                    _ => None,
                },
                _ => None,
            },
            _ => None,
        }
    }
}

/// The parser has room for one more instruction and one more series.
pub(crate) open spec fn parser_roomy(p: &Parser) -> bool {
    p.size() < usize::MAX - 1 && p.series@.len() < usize::MAX - 2
}

/// The conditions under which a rewrite that adds to the parser applies.
pub(crate) open spec fn adding_applies(p: &Parser, chars: Seq<Character>, settings: CompilerSettings, id: usize, rewrite: Rewrite, instruction: Instruction) -> bool {
    match rewrite {
        Rewrite::LowerToFirstChoiceWithoutSeq => match instruction {
            Instruction::Choice(first, second) | Instruction::FirstChoice(first, second) =>
                p.ins(second.0) matches Instruction::NotAhead(target) && (first == target),
            _ => false,
        },
        Rewrite::ReplaceByCharacter => settings.character_replacement && !(instruction is Series)
            && (inert(chars[id as int]) || !chars[id as int].can_match()),
        Rewrite::ConcatenateSeries => settings.merge_series && match instruction {
            Instruction::Sequence(first, second) => p.ins(first.0) is Series && p.ins(second.0) is Series,
            _ => false,
        },
        Rewrite::MergeSeries => settings.merge_series && match instruction {
            Instruction::Choice(first, second) | Instruction::FirstChoice(first, second) => match (p.ins(first.0), p.ins(second.0)) {
                (Instruction::Series(a), Instruction::Series(b)) => series_merge(p.series.value(a.0)@, p.series.value(b.0)@) is Some,
                _ => false,
            },
            _ => false,
        },
        Rewrite::NormalizeSeqOrder => match instruction {
            Instruction::Sequence(junction, third) => p.ins(junction.0) matches Instruction::Sequence(first, second)
                && (junction != third && !(p.ins(first.0) is Sequence) && !(p.ins(second.0) is Sequence)),
            _ => false,
        },
        Rewrite::NormalizeChoiceOrder => match instruction {
            Instruction::Choice(junction, third) => p.ins(junction.0) matches Instruction::Choice(first, second)
                && (!(p.ins(first.0) is Choice) && !(p.ins(second.0) is Choice)),
            _ => false,
        },
        Rewrite::NormalizeFirstChoiceOrder => match instruction {
            Instruction::FirstChoice(junction, third) => p.ins(junction.0) matches Instruction::FirstChoice(first, second)
                && (!(p.ins(first.0) is FirstChoice) && !(p.ins(second.0) is FirstChoice)),
            _ => false,
        },
        _ => false,
    }
}

/// What a rewrite that adds to the parser gives, when it applies: `new`
/// is the parser after it.
pub(crate) open spec fn adding_result(p: &Parser, new: &Parser, chars: Seq<Character>, id: usize, rewrite: Rewrite, instruction: Instruction, x: Instruction) -> bool {
    match rewrite {
        Rewrite::LowerToFirstChoiceWithoutSeq => match instruction {
            Instruction::Choice(first, _) | Instruction::FirstChoice(first, _) => x matches Instruction::FirstChoice(f, e)
                && f == first && (new.ins(e.0) matches Instruction::Series(s) && new.series.value(s.0)@.len() == 0),
            _ => false,
        },
        Rewrite::ReplaceByCharacter => x matches Instruction::Series(s) && new.series.value(s.0)@ == if inert(chars[id as int]) {
            Seq::<ClassView>::empty()
        } else {
            never_classes()
        },
        Rewrite::ConcatenateSeries => match instruction {
            Instruction::Sequence(first, second) => match (p.ins(first.0), p.ins(second.0)) {
                (Instruction::Series(a), Instruction::Series(b)) => x matches Instruction::Series(s)
                    && new.series.value(s.0)@ == concatenated(p.series.value(a.0)@, p.series.value(b.0)@),
                _ => false,
            },
            _ => false,
        },
        Rewrite::MergeSeries => match instruction {
            Instruction::Choice(first, second) | Instruction::FirstChoice(first, second) => match (p.ins(first.0), p.ins(second.0)) {
                (Instruction::Series(a), Instruction::Series(b)) => x matches Instruction::Series(s)
                    && Some(new.series.value(s.0)@) == series_merge(p.series.value(a.0)@, p.series.value(b.0)@),
                _ => false,
            },
            _ => false,
        },
        Rewrite::NormalizeSeqOrder => match instruction {
            Instruction::Sequence(junction, third) => match p.ins(junction.0) {
                Instruction::Sequence(first, second) => x matches Instruction::Sequence(f, j) && f == first
                    && new.ins(j.0) == Instruction::Sequence(second, third),
                _ => false,
            },
            _ => false,
        },
        Rewrite::NormalizeChoiceOrder => match instruction {
            Instruction::Choice(junction, third) => match p.ins(junction.0) {
                Instruction::Choice(first, second) => x matches Instruction::Choice(f, j) && f == first
                    && new.ins(j.0) == Instruction::Choice(second, third),
                _ => false,
            },
            _ => false,
        },
        Rewrite::NormalizeFirstChoiceOrder => match instruction {
            Instruction::FirstChoice(junction, third) => match p.ins(junction.0) {
                Instruction::FirstChoice(first, second) => x matches Instruction::FirstChoice(f, j) && f == first
                    && new.ins(j.0) == Instruction::FirstChoice(second, third),
                _ => false,
            },
            _ => false,
        },
        _ => false,
    }
}

impl Normalizer {
    /// Applies a rewrite that adds to the parser: it applies where
    /// [`adding_applies`] says so, when the parser has room.
    fn adding(&mut self, rewrite: Rewrite, id: InstructionId, instruction: Instruction) -> (result: Option<Instruction>)
        requires
            old(self).inv(),
            !is_pure(rewrite),
            old(self).parser.has(id.0),
            instruction == old(self).parser.ins(id.0),
        ensures
            final(self).inv(),
            final(self).settings == old(self).settings,
            final(self).parser.grows_from(&old(self).parser),
            result matches Some(x) ==> (final(self).parser.instruction_ok(x)
                && adding_result(&old(self).parser, &final(self).parser, old(self).characters@, id.0, rewrite, instruction, x)),
            result is Some <==> adding_applies(&old(self).parser, old(self).characters@, old(self).settings, id.0, rewrite, instruction)
                && parser_roomy(&old(self).parser),
            result is None ==> *final(self) == *old(self),
            result != Some(instruction),
    {
        proof {
            assert(self.parser.closed_at(id.0));
            match instruction {
                Instruction::Sequence(a, b) | Instruction::Choice(a, b) | Instruction::FirstChoice(a, b) => {
                    assert(instruction.succs()[0] == a);
                    assert(instruction.succs()[1] == b);
                    lemma_ok_of_wf(&self.parser, a.0);
                    lemma_ok_of_wf(&self.parser, b.0);
                },
                _ => {},
            }
        }
        if !self.has_room() {
            return None;
        }
        let ghost start = *self;
        match rewrite {
            Rewrite::LowerToFirstChoiceWithoutSeq => match instruction {
                Instruction::Choice(first, second) | Instruction::FirstChoice(first, second) => match self.get(second) {
                    Instruction::NotAhead(target) => if first == target {
                        let empty = self.insert_series(Series::empty());
                        let new_id = self.insert(Instruction::Series(empty), id, vec![id]);
                        proof {
                            lemma_ok_grows(&start.parser, &self.parser, start.parser.ins(first.0));
                            assert(self.parser.has(first.0));
                        }
                        Some(Instruction::FirstChoice(first, new_id))
                    } else {
                        None
                    },
                    _ => None,
                },
                _ => None,
            },
            Rewrite::ReplaceByCharacter => {
                if !self.settings.character_replacement {
                    return None;
                }
                if let Instruction::Series(_) = instruction {
                    return None;
                }
                let c = self.character(id);
                if !c.fallible && !c.antitransparent && !c.error_prone && !c.label_prone {
                    let s = self.insert_series(Series::empty());
                    Some(Instruction::Series(s))
                } else if !c.possible() {
                    let s = self.insert_series(Series::never());
                    Some(Instruction::Series(s))
                } else {
                    None
                }
            },
            Rewrite::ConcatenateSeries => {
                if !self.settings.merge_series {
                    return None;
                }
                match instruction {
                    Instruction::Sequence(first, second) => match (self.get(first), self.get(second)) {
                        (Instruction::Series(a), Instruction::Series(b)) => {
                            let series = Series::concatenate(self.parser.series.get(a), self.parser.series.get(b));
                            let s = self.insert_series(series);
                            Some(Instruction::Series(s))
                        },
                        _ => None,
                    },
                    _ => None,
                }
            },
            Rewrite::MergeSeries => {
                if !self.settings.merge_series {
                    return None;
                }
                match instruction {
                    Instruction::Choice(first, second) | Instruction::FirstChoice(first, second) => match (self.get(first), self.get(second)) {
                        (Instruction::Series(a), Instruction::Series(b)) => {
                            match Series::merge(self.parser.series.get(a), self.parser.series.get(b)) {
                                Some(series) => {
                                    let s = self.insert_series(series);
                                    Some(Instruction::Series(s))
                                },
                                None => None,
                            }
                        },
                        _ => None,
                    },
                    _ => None,
                }
            },
            Rewrite::NormalizeSeqOrder => match instruction {
                Instruction::Sequence(junction, third) => match self.get(junction) {
                    Instruction::Sequence(first, second) => {
                        proof {
                            assert(self.parser.closed_at(junction.0));
                            assert(self.parser.ins(junction.0).succs()[0] == first);
                            assert(self.parser.ins(junction.0).succs()[1] == second);
                        }
                        let junction_is_third = junction == third;
                        let first_is_seq = match self.get(first) { Instruction::Sequence(_, _) => true, _ => false };
                        let second_is_seq = match self.get(second) { Instruction::Sequence(_, _) => true, _ => false };
                        if junction_is_third || first_is_seq || second_is_seq {
                            return None;
                        }
                        let new_junction = self.insert(Instruction::Sequence(second, third), id, vec![id]);
                        proof {
                            assert(self.parser.has(first.0));
                        }
                        Some(Instruction::Sequence(first, new_junction))
                    },
                    _ => None,
                },
                _ => None,
            },
            Rewrite::NormalizeChoiceOrder => match instruction {
                Instruction::Choice(junction, third) => match self.get(junction) {
                    Instruction::Choice(first, second) => {
                        proof {
                            assert(self.parser.closed_at(junction.0));
                            assert(self.parser.ins(junction.0).succs()[0] == first);
                            assert(self.parser.ins(junction.0).succs()[1] == second);
                        }
                        let first_is = match self.get(first) { Instruction::Choice(_, _) => true, _ => false };
                        let second_is = match self.get(second) { Instruction::Choice(_, _) => true, _ => false };
                        if first_is || second_is {
                            return None;
                        }
                        let new_junction = self.insert(Instruction::Choice(second, third), id, vec![id]);
                        proof {
                            assert(self.parser.has(first.0));
                        }
                        Some(Instruction::Choice(first, new_junction))
                    },
                    _ => None,
                },
                _ => None,
            },
            Rewrite::NormalizeFirstChoiceOrder => match instruction {
                Instruction::FirstChoice(junction, third) => match self.get(junction) {
                    Instruction::FirstChoice(first, second) => {
                        proof {
                            assert(self.parser.closed_at(junction.0));
                            assert(self.parser.ins(junction.0).succs()[0] == first);
                            assert(self.parser.ins(junction.0).succs()[1] == second);
                        }
                        let first_is = match self.get(first) { Instruction::FirstChoice(_, _) => true, _ => false };
                        let second_is = match self.get(second) { Instruction::FirstChoice(_, _) => true, _ => false };
                        if first_is || second_is {
                            return None;
                        }
                        let new_junction = self.insert(Instruction::FirstChoice(second, third), id, vec![id]);
                        proof {
                            assert(self.parser.has(first.0));
                        }
                        Some(Instruction::FirstChoice(first, new_junction))
                    },
                    _ => None,
                },
                _ => None,
            },
            _ => None,
        }
    }
}

/// A parser that grew from a whole one reaches the same instructions.
pub(crate) proof fn lemma_grown_reachable(a: &Parser, b: &Parser)
    requires
        a.wf(),
        b.grows_from(a),
    ensures
        forall|i: usize| #[trigger] b.reachable(i) == a.reachable(i),
{
    let keep = Set::new(|x: usize| a.has(x));
    let ga = a.succ_graph();
    let gb = b.succ_graph();
    assert forall|x: usize| #[trigger] keep.contains(x) implies x < ga.len() && x < gb.len() && ga[x as int] == gb[x as int] by {
        assert(a.has(x));
        assert(b.has(x));
    }
    assert forall|x: usize, k: int| keep.contains(x) && 0 <= k < ga[x as int].len() implies keep.contains(#[trigger] ga[x as int][k]) by {
        assert(a.has(x));
        assert(a.closed_at(x));
        assert(ga[x as int] == indices(a.ins(x).succs()));
        assert(a.has(a.ins(x).succs()[k].0));
    }
    assert(a.has(a.start.0));
    assert forall|i: usize| #[trigger] b.reachable(i) == a.reachable(i) by {
        lemma_same_reach(ga, gb, keep, a.start.0, i);
        if a.has(i) {
            assert(b.has(i));
        }
    }
}

pub(crate) proof fn lemma_grows_trans(a: &Parser, b: &Parser, c: &Parser)
    requires
        b.grows_from(a),
        c.grows_from(b),
    ensures
        c.grows_from(a),
{
    assert forall|i: usize| #[trigger] a.has(i) implies c.has(i) && c.ins(i) == a.ins(i) by {
        assert(b.has(i));
    }
    assert forall|i: usize| #[trigger] a.debug_symbols.has(i) implies c.debug_symbols.has(i) by {
        assert(b.debug_symbols.has(i));
    }
    assert forall|x: usize| #[trigger] a.series.has(x) implies c.series.has(x) && c.series.value(x) == a.series.value(x) by {
        assert(b.series.has(x));
    }
    assert forall|x: usize| #[trigger] a.labels.has(x) implies c.labels.has(x) && c.labels.value(x) == a.labels.value(x) by {
        assert(b.labels.has(x));
    }
    assert forall|x: usize| #[trigger] a.expecteds.has(x) implies c.expecteds.has(x) && c.expecteds.value(x) == a.expecteds.value(x) by {
        assert(b.expecteds.has(x));
    }
}

/// Rewrite `rewrite` applies to instruction `id`, which holds
/// `instruction`, of a parser with characters `chars`.
pub(crate) open spec fn rewrite_applies(p: &Parser, chars: Seq<Character>, settings: CompilerSettings, id: usize, rewrite: Rewrite, instruction: Instruction) -> bool {
    if is_pure(rewrite) {
        pure_rewrite(p, chars, settings, rewrite, instruction) is Some
    } else {
        adding_applies(p, chars, settings, id, rewrite, instruction) && parser_roomy(p)
    }
}

/// Instruction `id`, which holds `instruction`, is settled under
/// `rewrites`: the first of them that applies, if one does, gives back
/// the instruction itself, so that applying it changes nothing.
pub(crate) open spec fn stage_settled(p: &Parser, chars: Seq<Character>, settings: CompilerSettings, rewrites: Seq<Rewrite>, id: usize, instruction: Instruction) -> bool {
    forall|k: int| 0 <= k < rewrites.len()
        && (forall|j: int| 0 <= j < k ==> !rewrite_applies(p, chars, settings, id, #[trigger] rewrites[j], instruction))
        && #[trigger] rewrite_applies(p, chars, settings, id, rewrites[k], instruction)
        ==> is_pure(rewrites[k]) && pure_rewrite(p, chars, settings, rewrites[k], instruction) == Some(instruction)
}

/// Applying rewrite `rewrite` to instruction `id` turned normalizer `old`
/// into `new` and gave `x`.
pub(crate) open spec fn rewrite_gives(old: &Normalizer, new: &Normalizer, id: usize, rewrite: Rewrite, instruction: Instruction, x: Instruction) -> bool {
    if is_pure(rewrite) {
        pure_rewrite(&old.parser, old.characters@, old.settings, rewrite, instruction) == Some(x) && *new == *old
    } else {
        adding_result(&old.parser, &new.parser, old.characters@, id, rewrite, instruction, x)
    }
}

/// Parser `b` is `a` with instruction `id` replaced by `x`.
pub(crate) open spec fn replaced(a: &Parser, b: &Parser, id: usize, x: Instruction) -> bool {
    &&& b.start == a.start
    &&& b.ins(id) == x
    &&& forall|i: usize| #[trigger] b.has(i) == a.has(i)
    &&& forall|i: usize| #[trigger] b.has(i) && i != id ==> b.ins(i) == a.ins(i)
    &&& b.series == a.series
    &&& b.labels == a.labels
    &&& b.expecteds == a.expecteds
    &&& b.debug_symbols == a.debug_symbols
}

/// One step of a run of `rewrites`: the first of them that applies to
/// instruction `id` of normalizer `a` gives `x`, which differs from the
/// instruction, and `x` takes its place in `b`.
pub(crate) open spec fn rewrite_step(a: Normalizer, b: Normalizer, rewrites: Seq<Rewrite>) -> bool {
    exists|id: usize, k: int, x: Instruction, mid: Normalizer|
        #[trigger] rewrite_gives(&a, &mid, id, rewrites[k], a.parser.ins(id), x)
        && a.parser.has(id)
        && 0 <= k < rewrites.len()
        && (forall|j: int| 0 <= j < k ==> !rewrite_applies(&a.parser, a.characters@, a.settings, id, #[trigger] rewrites[j], a.parser.ins(id)))
        && rewrite_applies(&a.parser, a.characters@, a.settings, id, rewrites[k], a.parser.ins(id))
        && x != a.parser.ins(id)
        && replaced(&mid.parser, &b.parser, id, x)
        && b.characters == mid.characters
        && b.settings == a.settings
}

/// `states` is a run of `rewrites` on parser `start`: it begins with
/// `start` and its characters, and each state follows from the one before
/// by a rewrite step.
pub(crate) open spec fn rewrite_run(states: Seq<Normalizer>, start: Parser, settings: CompilerSettings, rewrites: Seq<Rewrite>) -> bool {
    &&& states.len() >= 1
    &&& states[0].parser == start
    &&& states[0].characters@ == characters_of(&start)
    &&& states[0].settings == settings
    &&& forall|i: int| 0 <= i < states.len() - 1 ==> rewrite_step(#[trigger] states[i], states[i + 1], rewrites)
}

/// Whether `rewrite` adds nothing to the parser.
fn pure_kind(rewrite: Rewrite) -> (pure: bool)
    ensures
        pure == is_pure(rewrite),
{
    match rewrite {
        Rewrite::ResolveDelegate | Rewrite::LowerToFirstChoice | Rewrite::EliminateRedundantSeqs
        | Rewrite::EliminateRedundantChoices | Rewrite::TranslateUnnecessaryNonFirstChoice
        | Rewrite::EliminateDoubleNotAheads => true,
        _ => false,
    }
}

impl Normalizer {
    /// The first of `rewrites` that applies to instruction `id`, applied.
    fn normalize_instruction(&mut self, id: InstructionId, instruction: Instruction, rewrites: &Vec<Rewrite>) -> (result: Option<Instruction>)
        requires
            old(self).inv(),
            old(self).parser.has(id.0),
            instruction == old(self).parser.ins(id.0),
        ensures
            final(self).inv(),
            final(self).settings == old(self).settings,
            final(self).parser.grows_from(&old(self).parser),
            result matches Some(x) ==> final(self).parser.instruction_ok(x),
            result is None ==> *final(self) == *old(self) && forall|k: int| 0 <= k < rewrites@.len()
                ==> !rewrite_applies(&old(self).parser, old(self).characters@, old(self).settings, id.0, #[trigger] rewrites@[k], instruction),
            result matches Some(x) ==> exists|k: int| 0 <= k < rewrites@.len()
                && (forall|j: int| 0 <= j < k ==> !rewrite_applies(&old(self).parser, old(self).characters@, old(self).settings, id.0, #[trigger] rewrites@[j], instruction))
                && rewrite_applies(&old(self).parser, old(self).characters@, old(self).settings, id.0, rewrites@[k], instruction)
                && #[trigger] rewrite_gives(old(self), final(self), id.0, rewrites@[k], instruction, x),
            (result is None || result == Some(instruction)) ==> *final(self) == *old(self)
                && stage_settled(&old(self).parser, old(self).characters@, old(self).settings, rewrites@, id.0, instruction),
    {
        let mut k: usize = 0;
        while k < rewrites.len()
            invariant
                self.inv(),
                self.settings == old(self).settings,
                self.parser.grows_from(&old(self).parser),
                old(self).parser.has(id.0),
                instruction == old(self).parser.ins(id.0),
                *self == *old(self),
                k <= rewrites@.len(),
                forall|j: int| 0 <= j < k ==> !rewrite_applies(&old(self).parser, old(self).characters@, old(self).settings, id.0, #[trigger] rewrites@[j], instruction),
            decreases rewrites@.len() - k,
        {
            let ghost before = self.parser;
            let rewrite = rewrites[k];
            let result = if pure_kind(rewrite) {
                self.pure(rewrite, id, instruction)
            } else {
                self.adding(rewrite, id, instruction)
            };
            proof {
                lemma_grows_trans(&old(self).parser, &before, &self.parser);
            }
            if result.is_some() {
                proof {
                    let x = result.unwrap();
                    assert(rewrite_applies(&old(self).parser, old(self).characters@, old(self).settings, id.0, rewrites@[k as int], instruction));
                    assert(rewrite_gives(old(self), self, id.0, rewrites@[k as int], instruction, x));
                    if x == instruction {
                        assert(is_pure(rewrite));
                        assert forall|k2: int| 0 <= k2 < rewrites@.len()
                            && (forall|j: int| 0 <= j < k2 ==> !rewrite_applies(&old(self).parser, old(self).characters@, old(self).settings, id.0, #[trigger] rewrites@[j], instruction))
                            && #[trigger] rewrite_applies(&old(self).parser, old(self).characters@, old(self).settings, id.0, rewrites@[k2], instruction)
                            implies is_pure(rewrites@[k2]) && pure_rewrite(&old(self).parser, old(self).characters@, old(self).settings, rewrites@[k2], instruction) == Some(instruction) by {
                            if k2 > k {
                                assert(!rewrite_applies(&old(self).parser, old(self).characters@, old(self).settings, id.0, rewrites@[k as int], instruction));
                            }
                        }
                    }
                }
                return result;
            }
            k += 1;
        }
        None
    }

    /// Replaces instruction `id` by `new`.
    fn replace(&mut self, id: InstructionId, new: Instruction)
        requires
            old(self).inv(),
            old(self).parser.has(id.0),
            old(self).parser.instruction_ok(new),
        ensures
            final(self).inv(),
            final(self).settings == old(self).settings,
            final(self).queue == old(self).queue,
            final(self).parser.start == old(self).parser.start,
            final(self).parser.ins(id.0) == new,
            forall|i: usize| #[trigger] final(self).parser.has(i) == old(self).parser.has(i),
            replaced(&old(self).parser, &final(self).parser, id.0, new),
            final(self).characters == old(self).characters,
    {
        self.parser.replace_instruction(id, new);
    }
}

impl Parser {
    /// Runs the rewrites of stage `stage_index` on every instruction, in
    /// the order of a walk, until none applies; an instruction that changes
    /// queues its predecessors and itself again. Returns whether an
    /// instruction changed. The run stops after `u64::MAX` instructions,
    /// which it never reaches on a parser that fits in memory.
    pub(crate) fn run_passes(&mut self, settings: CompilerSettings, stage_index: usize) -> (modified: bool)
        requires
            old(self).wf(),
        ensures
            final(self).wf(),
            final(self).start == old(self).start,
            !modified ==> forall|i: usize| #[trigger] final(self).has(i) == old(self).reachable(i),
            !modified ==> forall|i: usize| #[trigger] final(self).has(i) ==> final(self).ins(i) == old(self).ins(i),
            forall|i: usize| #[trigger] final(self).reachable(i) == final(self).has(i),
            !modified ==> forall|i: usize| #[trigger] old(self).reachable(i) ==> stage_settled(old(self), characters_of(old(self)),
                settings, stage_rewrites(stage_index), i, old(self).ins(i)),
            exists|states: Seq<Normalizer>| #[trigger] rewrite_run(states, *old(self), settings, stage_rewrites(stage_index))
                && trimmed(&states.last().parser, final(self))
                && (!modified ==> states.len() == 1),
    {
        let order = self.walk();
        let size = self.instructions.next_index();
        let mut queue: OrderedSet<InstructionId> = OrderedSet::new();
        proof {
            assert forall|i: int| 0 <= i < order@.len() implies (#[trigger] order@[i]).key_index() < usize::MAX by {
                assert(self.reachable(order@[i].0));
                assert(self.has(order@[i].0));
            }
        }
        queue.extend(&order);
        let ghost extended = queue@;
        proof {
            assert forall|k: int| 0 <= k < extended.len() implies self.has((#[trigger] extended[k]).0) by {
                assert(queue.holds(extended[k].key_index()));
                let j = choose|j: int| 0 <= j < order@.len() && #[trigger] order@[j].key_index() == extended[k].key_index();
                assert(self.reachable(order@[j].0));
            }
        }
        queue.reverse();
        let predecessors = self.compute_predecessors();
        let characters = self.characterize();
        let mut parser = Parser::new();
        std::mem::swap(self, &mut parser);
        let ghost start = parser;
        let mut state = Normalizer { parser, settings, queue, predecessors, characters };
        proof {
            assert forall|k: int| 0 <= k < state.queue@.len() implies state.parser.has((#[trigger] state.queue@[k]).0) by {
                assert(state.queue@[k] == extended[extended.len() - 1 - k]);
            }
            assert forall|i: usize| #[trigger] start.reachable(i) implies lists(state.queue@, i) by {
                let j = choose|j: int| 0 <= j < order@.len() && #[trigger] order@[j].0 == i;
                assert(lists(extended, order@[j].key_index()));
                let x = choose|x: int| 0 <= x < extended.len() && (#[trigger] extended[x]).key_index() == i;
                assert(state.queue@[extended.len() - 1 - x] == extended[x]);
            }
        }
        let rewrites = stage(stage_index);
        let mut modified = false;
        let mut fuel: u64 = u64::MAX;
        let ghost mut states: Seq<Normalizer> = seq![state];
        loop
            invariant
                rewrite_run(states, start, settings, rewrites@),
                states.last().parser == state.parser,
                states.last().characters == state.characters,
                states.last().settings == settings,
                !modified ==> states.len() == 1,
                state.inv(),
                state.settings == settings,
                state.parser.start == start.start,
                start.wf(),
                rewrites@ == stage_rewrites(stage_index),
                !modified ==> state.parser.grows_from(&start),
                !modified ==> state.parser == start && state.characters@ == characters_of(&start),
                !modified ==> forall|i: usize| #[trigger] start.reachable(i) ==> lists(state.queue@, i)
                    || stage_settled(&start, characters_of(&start), settings, rewrites@, i, start.ins(i)),
            ensures
                !modified ==> state.queue@.len() == 0,
            decreases fuel,
        {
            if fuel == 0 {
                modified = true;
                break;
            }
            fuel -= 1;
            let ghost queued = state.queue@;
            let next = state.queue.pop();
            match next {
                None => {
                    proof {
                        assert forall|i: usize| #[trigger] start.reachable(i) implies !lists(state.queue@, i) by {}
                    }
                    break;
                },
                Some(id) => {
                    let ghost popped = state.queue@;
                    proof {
                        assert(state.parser.has(id.0));
                    }
                    let instruction = state.get(id);
                    let ghost before_step = state.parser;
                    let ghost before_state = state;
                    let rewritten = state.normalize_instruction(id, instruction, &rewrites);
                    let ghost after_norm = state;
                    proof {
                        if !modified {
                            lemma_grows_trans(&start, &before_step, &state.parser);
                            if rewritten is None || rewritten == Some(instruction) {
                                assert forall|i: usize| #[trigger] start.reachable(i) implies lists(state.queue@, i)
                                    || stage_settled(&start, characters_of(&start), settings, rewrites@, i, start.ins(i)) by {
                                    if i == id.0 {
                                        assert(stage_settled(&start, characters_of(&start), settings, rewrites@, i, start.ins(i)));
                                    } else if lists(queued, i) {
                                        let x = choose|x: int| 0 <= x < queued.len() && (#[trigger] queued[x]).key_index() == i;
                                        assert(x != queued.len() - 1);
                                        assert(state.queue@[x] == queued[x]);
                                    }
                                }
                            }
                        }
                    }
                    if let Some(new_instruction) = rewritten {
                        if instruction != new_instruction {
                            let count = state.predecessors[id.0].len();
                            let mut m: usize = 0;
                            while m < count
                                invariant
                                    state.inv(),
                                    state.settings == settings,
                                    state.parser.start == start.start,
                                    state.parser.has(id.0),
                                    state.parser.instruction_ok(new_instruction),
                                    count == state.predecessors@[id.0 as int]@.len(),
                                    state.parser == after_norm.parser,
                                    state.characters == after_norm.characters,
                                decreases count - m,
                            {
                                let p = state.predecessors[id.0][m];
                                proof {
                                    assert(state.parser.has(p.0));
                                }
                                let ghost bq = state.queue@;
                                state.queue.push(p);
                                proof {
                                    assert forall|k: int| 0 <= k < state.queue@.len() implies state.parser.has((#[trigger] state.queue@[k]).0) by {
                                        if k < bq.len() {
                                            assert(state.queue@[k] == bq[k]);
                                        }
                                    }
                                }
                                m += 1;
                            }
                            let ghost bq = state.queue@;
                            state.queue.push(id);
                            proof {
                                assert forall|k: int| 0 <= k < state.queue@.len() implies state.parser.has((#[trigger] state.queue@[k]).0) by {
                                    if k < bq.len() {
                                        assert(state.queue@[k] == bq[k]);
                                    }
                                }
                            }
                            let ghost pre_replace = state;
                            state.replace(id, new_instruction);
                            proof {
                                let a = states.last();
                                let x = new_instruction;
                                let k = choose|k: int| 0 <= k < rewrites@.len()
                                    && (forall|j: int| 0 <= j < k ==> !rewrite_applies(&before_state.parser, before_state.characters@, before_state.settings, id.0, #[trigger] rewrites@[j], instruction))
                                    && rewrite_applies(&before_state.parser, before_state.characters@, before_state.settings, id.0, rewrites@[k], instruction)
                                    && #[trigger] rewrite_gives(&before_state, &after_norm, id.0, rewrites@[k], instruction, x);
                                let mid = if is_pure(rewrites@[k]) { a } else { after_norm };
                                assert(rewrite_gives(&a, &mid, id.0, rewrites@[k], a.parser.ins(id.0), x));
                                assert(rewrite_step(a, state, rewrites@));
                                let old_states = states;
                                states = states.push(state);
                                assert forall|i: int| 0 <= i < states.len() - 1 implies rewrite_step(#[trigger] states[i], states[i + 1], rewrites@) by {
                                    if i < old_states.len() - 1 {
                                        assert(states[i] == old_states[i]);
                                        assert(states[i + 1] == old_states[i + 1]);
                                    }
                                }
                            }
                            modified = true;
                        }
                    }
                },
            }
        }
        proof {
            if !modified {
                assert forall|i: usize| #[trigger] start.reachable(i) implies
                    stage_settled(&start, characters_of(&start), settings, rewrites@, i, start.ins(i)) by {
                    if lists(state.queue@, i) {
                        let x = choose|x: int| 0 <= x < state.queue@.len() && (#[trigger] state.queue@[x]).key_index() == i;
                    }
                }
            }
        }
        let Normalizer { parser, .. } = state;
        *self = parser;
        let ghost grown = *self;
        self.trim();
        proof {
            if !modified {
                lemma_grown_reachable(&start, &grown);
                assert forall|i: usize| #[trigger] self.has(i) implies self.ins(i) == start.ins(i) by {
                    assert(grown.reachable(i));
                    assert(start.reachable(i));
                    assert(start.has(i));
                }
            }
            assert(trimmed(&states.last().parser, self));
            assert(rewrite_run(states, *old(self), settings, stage_rewrites(stage_index)));
        }
        modified
    }

    /// Rewrites the instructions into a normal form: runs the stages in
    /// turn, and starts over from the first whenever one changes the
    /// parser. Says whether it got there: it stops after `u64::MAX` rounds,
    /// which it never reaches on a parser that fits in memory.
    pub(crate) fn normalize(&mut self, settings: CompilerSettings) -> (settled: bool)
        requires
            old(self).wf(),
        ensures
            final(self).wf(),
            final(self).start == old(self).start,
            forall|i: usize| #[trigger] final(self).reachable(i) == final(self).has(i),
            settled ==> exists|stages: Seq<Parser>| #[trigger] normal_round(stages, settings, final(self)),
            exists|path: Seq<Parser>| #[trigger] stage_path(path, settings) && path[0] == *old(self) && path.last() == *final(self),
    {
        let mut fuel: u64 = u64::MAX;
        let ghost mut path: Seq<Parser> = seq![*self];
        loop
            invariant
                stage_path(path, settings),
                path[0] == *old(self),
                path.last() == *self,
                self.wf(),
                self.start == old(self).start,
                fuel < u64::MAX ==> forall|i: usize| #[trigger] self.reachable(i) == self.has(i),
            decreases fuel,
        {
            if fuel == 0 {
                return false;
            }
            fuel -= 1;
            let mut changed = false;
            let mut k: usize = 0;
            let ghost mut stages: Seq<Parser> = Seq::empty();
            while k < 3 && !changed
                invariant
                    stage_path(path, settings),
                    path[0] == *old(self),
                    path.last() == *self,
                    self.wf(),
                    self.start == old(self).start,
                    changed ==> k > 0,
                    k <= 3,
                    k > 0 ==> forall|i: usize| #[trigger] self.reachable(i) == self.has(i),
                    !changed ==> round_so_far(stages, settings, self, k as int),
                decreases 3 - k,
            {
                let ghost before = *self;
                let ghost before_stages = stages;
                changed = self.run_passes(settings, k);
                proof {
                    let states = choose|states: Seq<Normalizer>| #[trigger] rewrite_run(states, before, settings, stage_rewrites(k))
                        && trimmed(&states.last().parser, self)
                        && (!changed ==> states.len() == 1);
                    assert(rewrite_run(states, before, settings, stage_rewrites(k)));
                    assert(stage_run(before, *self, settings));
                    let old_path = path;
                    path = path.push(*self);
                    assert forall|i: int| 0 <= i < path.len() - 1 implies stage_run(#[trigger] path[i], path[i + 1], settings) by {
                        if i < old_path.len() - 1 {
                            assert(path[i] == old_path[i]);
                            assert(path[i + 1] == old_path[i + 1]);
                        }
                    }
                    if !changed {
                        assert(round_so_far(before_stages, settings, &before, k as int));
                        stages = stages.push(before);
                        assert forall|j: int| 0 <= j < k + 1 implies #[trigger] settled_parser(&stages[j], settings, j as usize)
                            && same_kept(&stages[j], self) by {
                            if j < k {
                                assert(stages[j] == before_stages[j]);
                                assert(settled_parser(&before_stages[j], settings, j as usize));
                                assert(same_kept(&before_stages[j], &before));
                                assert forall|i: usize| #[trigger] self.has(i) == stages[j].reachable(i)
                                    && (self.has(i) ==> self.ins(i) == stages[j].ins(i)) by {
                                    assert(self.has(i) == before.reachable(i));
                                    assert(before.reachable(i) == before.has(i));
                                }
                            } else {
                                assert(stages[j] == before);
                                assert(settled_parser(&before, settings, k));
                                assert(same_kept(&before, self));
                            }
                        }
                        assert(round_so_far(stages, settings, self, k + 1));
                    }
                }
                k += 1;
            }
            if !changed {
                proof {
                    assert(round_so_far(stages, settings, self, 3));
                    assert(normal_round(stages, settings, self));
                }
                return true;
            }
        }
    }
}

/// Every instruction that `p` reaches is settled under the rewrites of
/// stage `index`, with the characters of `p`.
pub(crate) open spec fn settled_parser(p: &Parser, settings: CompilerSettings, index: usize) -> bool {
    forall|i: usize| #[trigger] p.reachable(i) ==> stage_settled(p, characters_of(p), settings, stage_rewrites(index), i, p.ins(i))
}

/// `r` keeps exactly the instructions that `q` reaches, as they are.
pub(crate) open spec fn same_kept(q: &Parser, r: &Parser) -> bool {
    forall|i: usize| #[trigger] r.has(i) == q.reachable(i) && (r.has(i) ==> r.ins(i) == q.ins(i))
}

/// `stages` are the parsers at the start of the first `k` stages of a
/// round, each of which found every instruction settled, and `r` keeps
/// exactly the instructions that each reaches.
pub(crate) open spec fn round_so_far(stages: Seq<Parser>, settings: CompilerSettings, r: &Parser, k: int) -> bool {
    &&& stages.len() == k
    &&& forall|j: int| 0 <= j < k ==> #[trigger] settled_parser(&stages[j], settings, j as usize) && same_kept(&stages[j], r)
}

/// `stages` are the parsers at the start of each stage of a last round of
/// normalization, whose instructions every stage found settled, and `r`
/// keeps exactly the instructions that each reaches: `r` is a normal form.
pub(crate) open spec fn normal_round(stages: Seq<Parser>, settings: CompilerSettings, r: &Parser) -> bool {
    &&& stages.len() == 3
    &&& forall|j: int| 0 <= j < 3 ==> #[trigger] settled_parser(&stages[j], settings, j as usize) && same_kept(&stages[j], r)
}

/// One run of the rewrites of a stage turns `p` into a parser that `q`
/// trims.
pub(crate) open spec fn stage_run(p: Parser, q: Parser, settings: CompilerSettings) -> bool {
    exists|s: usize, states: Seq<Normalizer>| s < 3
        && #[trigger] rewrite_run(states, p, settings, stage_rewrites(s))
        && trimmed(&states.last().parser, &q)
}

/// Each of `parsers` after the first comes from the one before by a run of
/// the rewrites of a stage.
pub(crate) open spec fn stage_path(parsers: Seq<Parser>, settings: CompilerSettings) -> bool {
    &&& parsers.len() >= 1
    &&& forall|i: int| 0 <= i < parsers.len() - 1 ==> stage_run(#[trigger] parsers[i], parsers[i + 1], settings)
}

/// The character that claims nothing.
fn nothing_character() -> (c: Character)
    ensures
        c == nothing(),
{
    Character { transparent: false, antitransparent: false, fallible: false, label_prone: false, error_prone: false }
}

} // verus!
