use crate::compiler::instruction::{Instruction, InstructionId};
use crate::compiler::series::{ClassView, has_never};
use crate::compiler::Parser;
use crate::ordered_set::{OrderedSet, lists};
use crate::store::StoreKey;
use vstd::prelude::*;

verus! {

/// The character of an instruction implements a conservative analysis of the
/// conditions under which it can succeed and fail.
#[derive(Debug, Copy, Clone, PartialEq, Eq, Structural, Hash)]
pub struct Character {
    /// An instruction is transparent if it can successfully match without
    /// consuming input.
    pub transparent: bool,
    /// An instruction is antitransparent if it can successfully match while
    /// consuming input.
    pub antitransparent: bool,
    /// An instruction is fallible if it can fail to match.
    pub fallible: bool,
    /// An instruction is label prone if it can successfully match with a
    /// label.
    pub label_prone: bool,
    /// An instruction is error prone if it can successfully match with an
    /// error.
    pub error_prone: bool,
}

impl Character {
    /// An instruction is possible if it can successfully match.
    pub open spec fn can_match(self) -> bool {
        self.transparent || self.antitransparent
    }

    /// An instruction is possible if it can successfully match.
    pub fn possible(&self) -> (possible: bool)
        ensures
            possible == self.can_match(),
    {
        self.transparent || self.antitransparent
    }
}

/// The character that claims nothing: the start of the analysis.
pub open spec fn nothing() -> Character {
    Character { transparent: false, antitransparent: false, fallible: false, label_prone: false, error_prone: false }
}

/// Each claim of `a` is also a claim of `b`.
pub open spec fn char_le(a: Character, b: Character) -> bool {
    &&& a.transparent ==> b.transparent
    &&& a.antitransparent ==> b.antitransparent
    &&& a.fallible ==> b.fallible
    &&& a.label_prone ==> b.label_prone
    &&& a.error_prone ==> b.error_prone
}

pub open spec fn seq_character(first: Character, second: Character) -> Character {
    let possible = first.can_match() && second.can_match();
    Character {
        transparent: (first.transparent && second.transparent) && possible,
        antitransparent: (first.antitransparent || second.antitransparent) && possible,
        fallible: first.fallible || second.fallible,
        label_prone: (first.label_prone || second.label_prone) && possible,
        error_prone: (first.error_prone || second.error_prone) && possible,
    }
}

/// A choice runs its second branch when the first fails or errs.
pub open spec fn choice_character(first: Character, second: Character) -> Character {
    let second_executable = first.fallible || first.error_prone;
    Character {
        transparent: first.transparent || second_executable && second.transparent,
        antitransparent: first.antitransparent || second_executable && second.antitransparent,
        fallible: first.fallible && second.fallible,
        label_prone: first.label_prone || second_executable && second.label_prone,
        error_prone: first.error_prone || second_executable && second.error_prone,
    }
}

/// A first choice runs its second branch only when the first fails.
pub open spec fn first_choice_character(first: Character, second: Character) -> Character {
    let second_executable = first.fallible;
    Character {
        transparent: first.transparent || second_executable && second.transparent,
        antitransparent: first.antitransparent || second_executable && second.antitransparent,
        fallible: first.fallible && second.fallible,
        label_prone: first.label_prone || second_executable && second.label_prone,
        error_prone: first.error_prone || second_executable && second.error_prone,
    }
}

pub open spec fn not_ahead_character(target: Character) -> Character {
    Character {
        transparent: target.fallible,
        antitransparent: false,
        fallible: target.can_match(),
        label_prone: false,
        error_prone: false,
    }
}

pub open spec fn label_character(target: Character) -> Character {
    Character { label_prone: target.can_match(), ..target }
}

pub open spec fn error_character(target: Character) -> Character {
    Character { error_prone: target.can_match(), ..target }
}

pub open spec fn series_character(classes: Seq<ClassView>) -> Character {
    Character {
        transparent: classes.len() == 0,
        antitransparent: classes.len() != 0 && !has_never(classes),
        fallible: classes.len() != 0,
        label_prone: false,
        error_prone: false,
    }
}

/// The character of `instruction` when its successors have the characters
/// of `states`.
pub(crate) open spec fn instruction_character(p: &Parser, instruction: Instruction, states: Seq<Character>) -> Character {
    match instruction {
        Instruction::Sequence(first, second) => seq_character(states[first.0 as int], states[second.0 as int]),
        Instruction::Choice(first, second) => choice_character(states[first.0 as int], states[second.0 as int]),
        Instruction::FirstChoice(first, second) => first_choice_character(states[first.0 as int], states[second.0 as int]),
        Instruction::NotAhead(target) => not_ahead_character(states[target.0 as int]),
        Instruction::Error(target, _) => error_character(states[target.0 as int]),
        Instruction::Label(target, _) => label_character(states[target.0 as int]),
        Instruction::Cache(target, _) | Instruction::Delegate(target) => states[target.0 as int],
        Instruction::Series(series) => series_character(p.series.value(series.0)@),
    }
}

/// `states` solves the equations of the characters: each instruction's
/// character is no less than what its successors' characters give it.
pub(crate) open spec fn is_closed(p: &Parser, states: Seq<Character>) -> bool {
    &&& states.len() == p.size()
    &&& forall|i: usize| #[trigger] p.has(i) ==> char_le(instruction_character(p, p.ins(i), states), states[i as int])
}

/// `a` claims no more than `b` at every instruction.
pub(crate) open spec fn below(p: &Parser, a: Seq<Character>, b: Seq<Character>) -> bool {
    forall|i: usize| #[trigger] p.has(i) ==> char_le(a[i as int], b[i as int])
}

/// `states` claims no more than any solution.
pub(crate) open spec fn below_all_solutions(p: &Parser, states: Seq<Character>) -> bool {
    forall|x: Seq<Character>| #[trigger] is_closed(p, x) ==> below(p, states, x)
}

/// The characters of the instructions: the least solution of the equations
/// that the instructions give.
pub(crate) open spec fn is_characterization(p: &Parser, states: Seq<Character>) -> bool {
    &&& states.len() == p.size()
    &&& forall|i: usize| #[trigger] p.has(i) ==> states[i as int] == instruction_character(p, p.ins(i), states)
    &&& forall|i: int| 0 <= i < states.len() && !p.has(i as usize) ==> #[trigger] states[i] == nothing()
    &&& below_all_solutions(p, states)
}

/// The characters of the instructions of `p`.
pub(crate) open spec fn characters_of(p: &Parser) -> Seq<Character> {
    choose|states: Seq<Character>| is_characterization(p, states)
}

/// The least solution is unique.
pub(crate) proof fn lemma_characterization_unique(p: &Parser, a: Seq<Character>, b: Seq<Character>)
    requires
        is_characterization(p, a),
        is_characterization(p, b),
        p.size() <= usize::MAX,
    ensures
        a == b,
{
    assert(is_closed(p, a));
    assert(is_closed(p, b));
    assert(below(p, a, b));
    assert(below(p, b, a));
    assert forall|i: int| 0 <= i < a.len() implies a[i] == b[i] by {
        let u = i as usize;
        if p.has(u) {
            assert(char_le(a[u as int], b[u as int]));
            assert(char_le(b[u as int], a[u as int]));
        }
    }
    assert(a =~= b);
}

/// A characterization is the characters of the instructions.
pub(crate) proof fn lemma_characters_of(p: &Parser, states: Seq<Character>)
    requires
        is_characterization(p, states),
        p.size() <= usize::MAX,
    ensures
        characters_of(p) == states,
{
    lemma_characterization_unique(p, characters_of(p), states);
}

spec fn flags(c: Character) -> nat {
    (if c.transparent { 1nat } else { 0nat }) + (if c.antitransparent { 1nat } else { 0nat }) + (if c.fallible { 1nat } else { 0nat })
        + (if c.label_prone { 1nat } else { 0nat }) + (if c.error_prone { 1nat } else { 0nat })
}

spec fn total(states: Seq<Character>) -> nat
    decreases states.len(),
{
    if states.len() == 0 {
        0
    } else {
        total(states.drop_last()) + flags(states.last())
    }
}

proof fn lemma_total_bound(states: Seq<Character>)
    ensures
        total(states) <= 5 * states.len(),
    decreases states.len(),
{
    if states.len() > 0 {
        lemma_total_bound(states.drop_last());
    }
}

proof fn lemma_total_update(states: Seq<Character>, i: int, c: Character)
    requires
        0 <= i < states.len(),
    ensures
        total(states.update(i, c)) + flags(states[i]) == total(states) + flags(c),
    decreases states.len(),
{
    let u = states.update(i, c);
    if i == states.len() - 1 {
        assert(u.drop_last() == states.drop_last());
    } else {
        lemma_total_update(states.drop_last(), i, c);
        assert(u.drop_last() == states.drop_last().update(i, c));
    }
}

proof fn lemma_monotone(p: &Parser, instruction: Instruction, a: Seq<Character>, b: Seq<Character>)
    requires
        forall|k: int| 0 <= k < instruction.succs().len() ==> char_le(a[#[trigger] instruction.succs()[k].0 as int], b[instruction.succs()[k].0 as int]),
    ensures
        char_le(instruction_character(p, instruction, a), instruction_character(p, instruction, b)),
{
    match instruction {
        Instruction::Sequence(first, second) | Instruction::Choice(first, second) | Instruction::FirstChoice(first, second) => {
            assert(instruction.succs()[0] == first);
            assert(instruction.succs()[1] == second);
        },
        Instruction::NotAhead(t) | Instruction::Error(t, _) | Instruction::Label(t, _) | Instruction::Cache(t, _) | Instruction::Delegate(t) => {
            assert(instruction.succs()[0] == t);
        },
        Instruction::Series(_) => {},
    }
}

proof fn lemma_frame(p: &Parser, instruction: Instruction, a: Seq<Character>, b: Seq<Character>)
    requires
        forall|k: int| 0 <= k < instruction.succs().len() ==> a[#[trigger] instruction.succs()[k].0 as int] == b[instruction.succs()[k].0 as int],
    ensures
        instruction_character(p, instruction, a) == instruction_character(p, instruction, b),
{
    match instruction {
        Instruction::Sequence(first, second) | Instruction::Choice(first, second) | Instruction::FirstChoice(first, second) => {
            assert(instruction.succs()[0] == first);
            assert(instruction.succs()[1] == second);
        },
        Instruction::NotAhead(t) | Instruction::Error(t, _) | Instruction::Label(t, _) | Instruction::Cache(t, _) | Instruction::Delegate(t) => {
            assert(instruction.succs()[0] == t);
        },
        Instruction::Series(_) => {},
    }
}

/// Whether `preds` lists, for each instruction, every instruction that
/// refers to it, and nothing else.
pub(crate) open spec fn predecessors_of(p: &Parser, preds: Seq<Vec<InstructionId>>) -> bool {
    &&& preds.len() == p.size()
    &&& forall|i: usize, k: int| #[trigger] p.has(i) && 0 <= k < p.ins(i).succs().len() ==>
        crate::compiler::class::occurs_in(InstructionId(i), #[trigger] preds[p.ins(i).succs()[k].0 as int]@)
    &&& forall|j: int, m: int| 0 <= j < preds.len() && 0 <= m < preds[j]@.len() ==> {
        let q = (#[trigger] preds[j]@[m]).0;
        &&& p.has(q)
        &&& exists|k: int| 0 <= k < p.ins(q).succs().len() && p.ins(q).succs()[k].0 == j
    }
}

impl Parser {
    /// The character of the instruction `id` when its successors have the
    /// characters of `states`.
    pub(crate) fn evaluate_character(&self, id: InstructionId, states: &Vec<Character>) -> (character: Character)
        requires
            self.graph_wf(),
            self.series_wf(),
            self.has(id.0),
            states@.len() == self.size(),
        ensures
            character == instruction_character(self, self.ins(id.0), states@),
    {
        let instruction = self.instruction(id);
        proof {
            assert(self.closed_at(id.0));
            match instruction {
                Instruction::Sequence(a, b) | Instruction::Choice(a, b) | Instruction::FirstChoice(a, b) => {
                    assert(instruction.succs()[0] == a);
                    assert(instruction.succs()[1] == b);
                },
                Instruction::NotAhead(t) | Instruction::Error(t, _) | Instruction::Label(t, _) | Instruction::Cache(t, _) | Instruction::Delegate(t) => {
                    assert(instruction.succs()[0] == t);
                },
                Instruction::Series(_) => {},
            }
        }
        match instruction {
            Instruction::Sequence(first, second) => {
                let first = states[first.0];
                let second = states[second.0];
                let possible = first.possible() && second.possible();
                Character {
                    transparent: (first.transparent && second.transparent) && possible,
                    antitransparent: (first.antitransparent || second.antitransparent) && possible,
                    fallible: first.fallible || second.fallible,
                    label_prone: (first.label_prone || second.label_prone) && possible,
                    error_prone: (first.error_prone || second.error_prone) && possible,
                }
            },
            Instruction::Choice(first, second) => {
                let first = states[first.0];
                let second = states[second.0];
                let second_executable = first.fallible || first.error_prone;
                Character {
                    transparent: first.transparent || second_executable && second.transparent,
                    antitransparent: first.antitransparent || second_executable && second.antitransparent,
                    fallible: first.fallible && second.fallible,
                    label_prone: first.label_prone || second_executable && second.label_prone,
                    error_prone: first.error_prone || second_executable && second.error_prone,
                }
            },
            Instruction::FirstChoice(first, second) => {
                let first = states[first.0];
                let second = states[second.0];
                let second_executable = first.fallible;
                Character {
                    transparent: first.transparent || second_executable && second.transparent,
                    antitransparent: first.antitransparent || second_executable && second.antitransparent,
                    fallible: first.fallible && second.fallible,
                    label_prone: first.label_prone || second_executable && second.label_prone,
                    error_prone: first.error_prone || second_executable && second.error_prone,
                }
            },
            Instruction::NotAhead(target) => {
                let target = states[target.0];
                Character {
                    transparent: target.fallible,
                    antitransparent: false,
                    fallible: target.possible(),
                    label_prone: false,
                    error_prone: false,
                }
            },
            Instruction::Error(target, _) => {
                let target = states[target.0];
                Character { error_prone: target.possible(), ..target }
            },
            Instruction::Label(target, _) => {
                let target = states[target.0];
                Character { label_prone: target.possible(), ..target }
            },
            Instruction::Cache(target, _) | Instruction::Delegate(target) => states[target.0],
            Instruction::Series(series) => {
                let series = self.series.get(series);
                let empty = series.is_empty();
                let never = series.is_never();
                Character {
                    transparent: empty,
                    antitransparent: !empty && !never,
                    fallible: !empty,
                    label_prone: false,
                    error_prone: false,
                }
            },
        }
    }

    /// Computes the predecessors of each instruction.
    pub(crate) fn compute_predecessors(&self) -> (preds: Vec<Vec<InstructionId>>)
        requires
            self.graph_wf(),
        ensures
            predecessors_of(self, preds@),
    {
        let n = self.instructions.next_index();
        let mut preds: Vec<Vec<InstructionId>> = Vec::new();
        while preds.len() < n
            invariant
                preds@.len() <= n,
                n == self.size(),
                forall|j: int| 0 <= j < preds@.len() ==> (#[trigger] preds@[j])@.len() == 0,
            decreases n - preds@.len(),
        {
            preds.push(Vec::new());
        }
        let keys = self.instructions.keys();
        let mut t: usize = 0;
        while t < keys.len()
            invariant
                t <= keys@.len(),
                n == self.size(),
                preds@.len() == n,
                self.graph_wf(),
                forall|a: int| 0 <= a < keys@.len() ==> self.has(#[trigger] keys@[a].key_index()),
                forall|a: int, b: int| 0 <= a < b < keys@.len() ==> keys@[a].key_index() < keys@[b].key_index(),
                forall|k: usize| self.has(k) ==> exists|a: int| 0 <= a < keys@.len() && #[trigger] keys@[a].key_index() == k,
                forall|i: usize, k: int| #[trigger] self.has(i) && 0 <= k < self.ins(i).succs().len() && (exists|a: int| 0 <= a < t && #[trigger] keys@[a].key_index() == i) ==>
                    crate::compiler::class::occurs_in(InstructionId(i), #[trigger] preds@[self.ins(i).succs()[k].0 as int]@),
                forall|j: int, m: int| 0 <= j < preds@.len() && 0 <= m < preds@[j]@.len() ==> {
                    let q = (#[trigger] preds@[j]@[m]).0;
                    &&& self.has(q)
                    &&& exists|k: int| 0 <= k < self.ins(q).succs().len() && self.ins(q).succs()[k].0 == j
                },
            decreases keys@.len() - t,
        {
            let id = keys[t];
            let instruction = self.instruction(id);
            let successors = instruction.successors();
            proof {
                assert(self.closed_at(id.0));
            }
            let mut s: usize = 0;
            while s < successors.len()
                invariant
                    s <= successors@.len(),
                    successors@ == instruction.succs(),
                    instruction == self.ins(id.0),
                    self.has(id.0),
                    self.closed_at(id.0),
                    self.graph_wf(),
                    preds@.len() == n,
                    n == self.size(),
                    forall|i: usize, k: int| #[trigger] self.has(i) && 0 <= k < self.ins(i).succs().len() && (exists|a: int| 0 <= a < t && #[trigger] keys@[a].key_index() == i) ==>
                        crate::compiler::class::occurs_in(InstructionId(i), #[trigger] preds@[self.ins(i).succs()[k].0 as int]@),
                    forall|k: int| 0 <= k < s ==> crate::compiler::class::occurs_in(id, #[trigger] preds@[successors@[k].0 as int]@),
                    forall|j: int, m: int| 0 <= j < preds@.len() && 0 <= m < preds@[j]@.len() ==> {
                        let q = (#[trigger] preds@[j]@[m]).0;
                        &&& self.has(q)
                        &&& exists|k: int| 0 <= k < self.ins(q).succs().len() && self.ins(q).succs()[k].0 == j
                    },
                decreases successors@.len() - s,
            {
                let target = successors[s].0;
                assert(self.has(instruction.succs()[s as int].0));
                let ghost before = preds@;
                preds.push(Vec::new());
                let mut list = preds.swap_remove(target);
                assert(list@ == before[target as int]@);
                assert(forall|j: int| 0 <= j < before.len() && j != target ==> #[trigger] preds@[j] == before[j]);
                list.push(id);
                preds.set(target, list);
                assert(forall|j: int| 0 <= j < before.len() && j != target ==> #[trigger] preds@[j] == before[j]);
                assert(preds@[target as int]@ == before[target as int]@.push(id));
                proof {
                    assert forall|j: int, m: int| 0 <= j < preds@.len() && 0 <= m < preds@[j]@.len() implies {
                        let q = (#[trigger] preds@[j]@[m]).0;
                        &&& self.has(q)
                        &&& exists|k: int| 0 <= k < self.ins(q).succs().len() && self.ins(q).succs()[k].0 == j
                    } by {
                        if j == target && m == before[j]@.len() {
                            assert(preds@[j]@[m] == id);
                            assert(self.ins(id.0).succs()[s as int].0 == j);
                        } else if j == target {
                            assert(preds@[j]@[m] == before[j]@[m]);
                        } else {
                            assert(preds@[j] == before[j]);
                        }
                    }
                    assert forall|i: usize, k: int| #[trigger] self.has(i) && 0 <= k < self.ins(i).succs().len() && (exists|a: int| 0 <= a < t && #[trigger] keys@[a].key_index() == i) implies
                        crate::compiler::class::occurs_in(InstructionId(i), #[trigger] preds@[self.ins(i).succs()[k].0 as int]@) by {
                        let j = self.ins(i).succs()[k].0 as int;
                        assert(self.closed_at(i));
                        assert(self.has(j as usize));
                        assert(crate::compiler::class::occurs_in(InstructionId(i), before[j]@));
                        let m = choose|m: int| 0 <= m < before[j]@.len() && before[j]@[m] == InstructionId(i);
                        if j == target {
                            assert(preds@[j]@[m] == before[j]@[m]);
                        } else {
                            assert(preds@[j] == before[j]);
                        }
                    }
                    assert forall|k: int| 0 <= k < s + 1 implies crate::compiler::class::occurs_in(id, #[trigger] preds@[successors@[k].0 as int]@) by {
                        let j = successors@[k].0 as int;
                        if k == s {
                            assert(preds@[j]@[preds@[j]@.len() - 1] == id);
                        } else {
                            assert(crate::compiler::class::occurs_in(id, before[j]@));
                            let m = choose|m: int| 0 <= m < before[j]@.len() && before[j]@[m] == id;
                            if j == target {
                                assert(preds@[j]@[m] == before[j]@[m]);
                            } else {
                                assert(preds@[j] == before[j]);
                            }
                        }
                    }
                }
                s += 1;
            }
            proof {
                assert forall|i: usize, k: int| #[trigger] self.has(i) && 0 <= k < self.ins(i).succs().len() && (exists|a: int| 0 <= a < t + 1 && #[trigger] keys@[a].key_index() == i) implies
                    crate::compiler::class::occurs_in(InstructionId(i), #[trigger] preds@[self.ins(i).succs()[k].0 as int]@) by {
                    let a = choose|a: int| 0 <= a < t + 1 && #[trigger] keys@[a].key_index() == i;
                    if a == t {
                        assert(id.0 == i);
                        assert(successors@[k] == self.ins(i).succs()[k]);
                    }
                }
            }
            t += 1;
        }
        proof {
            assert forall|i: usize, k: int| #[trigger] self.has(i) && 0 <= k < self.ins(i).succs().len() implies
                crate::compiler::class::occurs_in(InstructionId(i), #[trigger] preds@[self.ins(i).succs()[k].0 as int]@) by {
                let a = choose|a: int| 0 <= a < keys@.len() && #[trigger] keys@[a].key_index() == i;
            }
        }
        preds
    }
}

proof fn lemma_flags_grow(a: Character, b: Character)
    requires
        char_le(a, b),
        a != b,
    ensures
        flags(a) < flags(b),
{
}

proof fn lemma_step_le(p: &Parser, s: Seq<Character>, id: usize, new: Character)
    requires
        p.graph_wf(),
        s.len() == p.size(),
        p.has(id),
        new == instruction_character(p, p.ins(id), s),
        forall|i: usize| #[trigger] p.has(i) ==> char_le(s[i as int], instruction_character(p, p.ins(i), s)),
    ensures
        forall|i: usize| #[trigger] p.has(i) ==> char_le(s.update(id as int, new)[i as int], instruction_character(p, p.ins(i), s.update(id as int, new))),
        forall|i: int| 0 <= i < s.len() ==> char_le(#[trigger] s[i], s.update(id as int, new)[i]),
{
    let s2 = s.update(id as int, new);
    assert(char_le(s[id as int], new));
    assert forall|i: int| 0 <= i < s.len() implies char_le(#[trigger] s[i], s2[i]) by {
        if i == id {
        }
    }
    assert forall|i: usize| #[trigger] p.has(i) implies char_le(s2[i as int], instruction_character(p, p.ins(i), s2)) by {
        assert(p.closed_at(i));
        assert forall|k: int| 0 <= k < p.ins(i).succs().len() implies char_le(s[#[trigger] p.ins(i).succs()[k].0 as int], s2[p.ins(i).succs()[k].0 as int]) by {
            assert(p.has(p.ins(i).succs()[k].0));
        }
        lemma_monotone(p, p.ins(i), s, s2);
    }
}

proof fn lemma_step_least(p: &Parser, s: Seq<Character>, id: usize, new: Character)
    requires
        p.graph_wf(),
        s.len() == p.size(),
        p.has(id),
        new == instruction_character(p, p.ins(id), s),
        below_all_solutions(p, s),
    ensures
        below_all_solutions(p, s.update(id as int, new)),
{
    let s2 = s.update(id as int, new);
    assert forall|x: Seq<Character>| #[trigger] is_closed(p, x) implies below(p, s2, x) by {
        assert(below(p, s, x));
        assert(p.closed_at(id));
        assert forall|k: int| 0 <= k < p.ins(id).succs().len() implies char_le(s[#[trigger] p.ins(id).succs()[k].0 as int], x[p.ins(id).succs()[k].0 as int]) by {
            assert(p.has(p.ins(id).succs()[k].0));
        }
        lemma_monotone(p, p.ins(id), s, x);
        assert forall|i: usize| #[trigger] p.has(i) implies char_le(s2[i as int], x[i as int]) by {
            if i == id {
            }
        }
    }
}

impl Parser {
    /// Computes the characters of the instructions: the least solution of
    /// the equations that the instructions give, found by iterating until a
    /// fixed point is reached.
    pub(crate) fn characterize(&self) -> (states: Vec<Character>)
        requires
            self.graph_wf(),
            self.series_wf(),
        ensures
            is_characterization(self, states@),
            states@ == characters_of(self),
    {
        let n = self.instructions.next_index();
        let default = Character { transparent: false, antitransparent: false, fallible: false, label_prone: false, error_prone: false };
        let mut states: Vec<Character> = Vec::new();
        while states.len() < n
            invariant
                states@.len() <= n,
                default == nothing(),
                forall|i: int| 0 <= i < states@.len() ==> #[trigger] states@[i] == nothing(),
            decreases n - states@.len(),
        {
            states.push(default);
        }
        let preds = self.compute_predecessors();
        let keys = self.instructions.keys();
        let mut queue: OrderedSet<InstructionId> = OrderedSet::new();
        proof {
            assert forall|i: int| 0 <= i < keys@.len() implies (#[trigger] keys@[i]).key_index() < usize::MAX by {
                assert(self.has(keys@[i].key_index()));
            }
        }
        queue.extend(&keys);
        proof {
            assert forall|x: Seq<Character>| #[trigger] is_closed(self, x) implies below(self, states@, x) by {}
            assert forall|i: usize| #[trigger] self.has(i) && !queue.holds(i) implies states@[i as int] == instruction_character(self, self.ins(i), states@) by {
                let a = choose|a: int| 0 <= a < keys@.len() && #[trigger] keys@[a].key_index() == i;
                assert(queue.holds(keys@[a].key_index()));
            }
            assert forall|j: int| 0 <= j < queue@.len() implies self.has((#[trigger] queue@[j]).0) by {
                assert(queue.holds(queue@[j].key_index()));
                let a = choose|a: int| 0 <= a < keys@.len() && #[trigger] keys@[a].key_index() == queue@[j].key_index();
            }
            lemma_total_bound(states@);
        }
        while !queue.is_empty()
            invariant
                n == self.size(),
                states@.len() == n,
                self.graph_wf(),
                self.series_wf(),
                predecessors_of(self, preds@),
                forall|i: int| 0 <= i < n && !self.has(i as usize) ==> #[trigger] states@[i] == nothing(),
                forall|i: usize| #[trigger] self.has(i) ==> char_le(states@[i as int], instruction_character(self, self.ins(i), states@)),
                forall|i: usize| #[trigger] self.has(i) && !queue.holds(i) ==> states@[i as int] == instruction_character(self, self.ins(i), states@),
                below_all_solutions(self, states@),
                forall|j: int| 0 <= j < queue@.len() ==> self.has((#[trigger] queue@[j]).0),
                total(states@) <= 5 * n,
            decreases 5 * n - total(states@), queue@.len(),
        {
            let ghost old_states = states@;
            let ghost old_queue = queue@;
            let id = queue.pop().unwrap();
            proof {
                assert(old_queue[old_queue.len() - 1] == id);
                assert(self.has(id.0));
            }
            let new = self.evaluate_character(id, &states);
            let updated = states[id.0] != new;
            states.set(id.0, new);
            proof {
                lemma_step_le(self, old_states, id.0, new);
                lemma_step_least(self, old_states, id.0, new);
                lemma_total_update(old_states, id.0 as int, new);
                lemma_total_bound(states@);
                if updated {
                    lemma_flags_grow(old_states[id.0 as int], new);
                }
            }
            if updated {
                let ghost popped = queue@;
                proof {
                    assert forall|m: int| 0 <= m < preds@[id.0 as int]@.len() implies (#[trigger] preds@[id.0 as int]@[m]).key_index() < usize::MAX by {
                        assert(self.has(preds@[id.0 as int]@[m].0));
                    }
                }
                queue.extend(&preds[id.0]);
                proof {
                    assert forall|j: int| 0 <= j < queue@.len() implies self.has((#[trigger] queue@[j]).0) by {
                        assert(queue.holds(queue@[j].key_index()));
                        if lists(popped, queue@[j].key_index()) {
                            let b = choose|b: int| 0 <= b < popped.len() && (#[trigger] popped[b]).key_index() == queue@[j].key_index();
                            assert(old_queue[b] == popped[b]);
                        } else {
                            let m = choose|m: int| 0 <= m < preds@[id.0 as int]@.len() && (#[trigger] preds@[id.0 as int]@[m]).key_index() == queue@[j].key_index();
                        }
                    }
                    assert forall|i: usize| #[trigger] self.has(i) && !queue.holds(i) implies states@[i as int] == instruction_character(self, self.ins(i), states@) by {
                        assert(!lists(popped, i));
                        assert(self.closed_at(i));
                        assert forall|k: int| 0 <= k < self.ins(i).succs().len() implies old_states[#[trigger] self.ins(i).succs()[k].0 as int] == states@[self.ins(i).succs()[k].0 as int] by {
                            let t = self.ins(i).succs()[k].0;
                            if t == id.0 {
                                assert(crate::compiler::class::occurs_in(InstructionId(i), preds@[t as int]@));
                                let m = choose|m: int| 0 <= m < preds@[t as int]@.len() && preds@[t as int]@[m] == InstructionId(i);
                                assert(queue.holds(preds@[t as int]@[m].key_index()));
                            }
                        }
                        lemma_frame(self, self.ins(i), old_states, states@);
                        if i != id.0 {
                            if lists(old_queue, i) {
                                let b = choose|b: int| 0 <= b < old_queue.len() && (#[trigger] old_queue[b]).key_index() == i;
                                assert(b != old_queue.len() - 1);
                                assert(popped[b] == old_queue[b]);
                            }
                        }
                    }
                }
            } else {
                proof {
                    assert(states@ == old_states);
                    assert forall|j: int| 0 <= j < queue@.len() implies self.has((#[trigger] queue@[j]).0) by {
                        assert(queue@[j] == old_queue[j]);
                    }
                    assert forall|i: usize| #[trigger] self.has(i) && !queue.holds(i) implies states@[i as int] == instruction_character(self, self.ins(i), states@) by {
                        if i != id.0 && lists(old_queue, i) {
                            let b = choose|b: int| 0 <= b < old_queue.len() && (#[trigger] old_queue[b]).key_index() == i;
                            assert(queue@[b] == old_queue[b]);
                        }
                    }
                }
            }
        }
        proof {
            lemma_characters_of(self, states@);
        }
        states
    }
}

} // verus!
