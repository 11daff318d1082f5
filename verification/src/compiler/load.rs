use crate::compiler::class::{Class, normal_form};
use crate::compiler::instruction::{ExpectedId, Instruction, InstructionId, LabelId, SeriesId};
use crate::compiler::series::{ClassView, Series, appended};
use crate::compiler::sorted_set::ByteKeyed;
use crate::compiler::{DebugSymbol, Parser};
use crate::store::{Store, StoreKey};
use crate::text::{decimal, push_decimal};
use vstd::prelude::*;

verus! {

/// The version of the intermediate representation that can be loaded.
pub const VERSION: u32 = 0;

/// A character class of the intermediate representation.
pub struct ClassIr {
    pub negated: bool,
    pub ranges: Vec<(u8, u8)>,
}

/// An instruction of the intermediate representation. Instructions refer
/// to each other by their index.
pub enum InstructionIr {
    Sequence { first: usize, second: usize, rule_name: Option<String> },
    Choice { first: usize, second: usize, rule_name: Option<String> },
    NotAhead { target: usize, rule_name: Option<String> },
    Error { target: usize, expected: usize, rule_name: Option<String> },
    Label { target: usize, label: String, rule_name: Option<String> },
    Delegate { target: usize, rule_name: Option<String> },
    Series { classes: Vec<ClassIr>, rule_name: Option<String> },
}

/// The intermediate representation of a grammar, as the front end emits
/// it: either the grammar or the error that the front end met.
pub enum Ir {
    Error { version: u32, message: String },
    Success { version: u32, start: usize, instructions: Vec<InstructionIr> },
}

/// The instruction indices that an instruction refers to, in the order in
/// which loading checks them.
pub open spec fn refs_of(ir: InstructionIr) -> Seq<usize> {
    match ir {
        InstructionIr::Sequence { first, second, .. } | InstructionIr::Choice { first, second, .. } => seq![first, second],
        InstructionIr::NotAhead { target, .. } | InstructionIr::Label { target, .. } | InstructionIr::Delegate { target, .. } => seq![target],
        InstructionIr::Error { target, expected, .. } => seq![target, expected],
        InstructionIr::Series { .. } => Seq::empty(),
    }
}

/// The references of all of `instructions`, in order.
pub open spec fn all_refs(instructions: Seq<InstructionIr>) -> Seq<usize>
    decreases instructions.len(),
{
    if instructions.len() == 0 {
        Seq::empty()
    } else {
        all_refs(instructions.drop_last()) + refs_of(instructions.last())
    }
}

/// The first of `refs` that is no instruction index below `count`.
pub open spec fn first_illegal(refs: Seq<usize>, count: nat) -> Option<usize>
    decreases refs.len(),
{
    if refs.len() == 0 {
        None
    } else if refs[0] >= count {
        Some(refs[0])
    } else {
        first_illegal(refs.drop_first(), count)
    }
}

pub proof fn lemma_first_illegal_concat(a: Seq<usize>, b: Seq<usize>, count: nat)
    ensures
        first_illegal(a + b, count) == match first_illegal(a, count) {
            Some(id) => Some(id),
            None => first_illegal(b, count),
        },
    decreases a.len(),
{
    if a.len() == 0 {
        assert(a + b == b);
    } else {
        assert((a + b).drop_first() == a.drop_first() + b);
        lemma_first_illegal_concat(a.drop_first(), b, count);
    }
}

proof fn lemma_first_illegal_small(a: usize, b: usize, count: nat)
    ensures
        first_illegal(seq![a], count) == if a >= count { Some(a) } else { None::<usize> },
        first_illegal(seq![a, b], count) == if a >= count { Some(a) } else if b >= count { Some(b) } else { None::<usize> },
{
    reveal_with_fuel(first_illegal, 3);
    assert(seq![a].drop_first() =~= Seq::<usize>::empty());
    assert(seq![a, b].drop_first() =~= seq![b]);
    assert(seq![b].drop_first() =~= Seq::<usize>::empty());
}

/// The message of a reference to a missing instruction.
pub open spec fn illegal_id_message(id: usize) -> Seq<char> {
    "Invalid IR: Illegal instruction ID: "@ + decimal(id as nat)
}

/// The message of a representation of another version.
pub open spec fn invalid_version_message() -> Seq<char> {
    "Malformed internal representation (invalid version)"@
}

/// The message of a label that holds no letter from `a` to `z`.
pub open spec fn invalid_label_message() -> Seq<char> {
    "Malformed internal representation (invalid label)"@
}

/// `text` holds a letter from `a` to `z`: exactly where the pattern
/// `[a-z]+(_[a-z]+)*` matches somewhere in it.
pub open spec fn has_lowercase(text: Seq<char>) -> bool {
    exists|i: int| 0 <= i < text.len() && 'a' <= #[trigger] text[i] <= 'z'
}

/// Every label of `instructions` holds a letter from `a` to `z`.
pub open spec fn labels_valid(instructions: Seq<InstructionIr>) -> bool {
    forall|i: int| 0 <= i < instructions.len() ==> match #[trigger] instructions[i] {
        InstructionIr::Label { label, .. } => has_lowercase(label@),
        _ => true,
    }
}

/// Whether `[a-z]+(_[a-z]+)*` matches somewhere in `label`, by
/// `regex::Regex::is_match`. Such a match exists exactly where the label
/// holds a letter from `a` to `z`, since a single letter is a match.
#[verifier::external_body]
fn label_is_valid(label: &str) -> (ok: bool)
    ensures
        ok == has_lowercase(label@),
{
    regex::Regex::new("[a-z]+(_[a-z]+)*").unwrap().is_match(label)
}

/// Whether `label` can name a label: it holds a letter from `a` to `z`.
pub fn is_valid_label(label: &String) -> (ok: bool)
    ensures
        ok == has_lowercase(label@),
{
    label_is_valid(label.as_str())
}

/// Whether every label of `instructions` is valid.
fn check_labels(instructions: &Vec<InstructionIr>) -> (ok: bool)
    ensures
        ok == labels_valid(instructions@),
{
    let mut i: usize = 0;
    while i < instructions.len()
        invariant
            i <= instructions@.len(),
            labels_valid(instructions@.take(i as int)),
        decreases instructions@.len() - i,
    {
        if let InstructionIr::Label { label, .. } = &instructions[i] {
            if !is_valid_label(label) {
                assert(!labels_valid(instructions@)) by {
                    assert(match instructions@[i as int] {
                        InstructionIr::Label { label, .. } => !has_lowercase(label@),
                        _ => false,
                    });
                }
                return false;
            }
        }
        assert forall|j: int| 0 <= j < i + 1 implies match #[trigger] instructions@.take(i + 1)[j] {
            InstructionIr::Label { label, .. } => has_lowercase(label@),
            _ => true,
        } by {
            if j < i {
                assert(instructions@.take(i + 1)[j] == instructions@.take(i as int)[j]);
            }
        }
        i += 1;
    }
    assert(instructions@.take(i as int) =~= instructions@);
    true
}

/// The message with which loading `ir` fails, if it fails.
pub open spec fn load_error(ir: Ir) -> Option<Seq<char>> {
    match ir {
        Ir::Error { version, message } => if version != VERSION {
            Some(invalid_version_message())
        } else {
            Some(message@)
        },
        Ir::Success { version, start, instructions } => if version != VERSION {
            Some(invalid_version_message())
        } else if !labels_valid(instructions@) {
            Some(invalid_label_message())
        } else if start >= instructions.len() {
            Some(illegal_id_message(start))
        } else {
            match first_illegal(all_refs(instructions@), instructions.len() as nat) {
                Some(id) => Some(illegal_id_message(id)),
                None => None,
            }
        },
    }
}

/// The ranges of a class after each of `ranges` was inserted, in order.
pub open spec fn ranges_of_ir(ranges: Seq<(u8, u8)>) -> Seq<(u8, u8)>
    decreases ranges.len(),
{
    if ranges.len() == 0 {
        Seq::empty()
    } else {
        normal_form(ranges_of_ir(ranges.drop_last()).push(ranges.last()))
    }
}

/// The class that a class of the representation loads as.
pub open spec fn class_of_ir(class: ClassIr) -> ClassView {
    (class.negated, ranges_of_ir(class.ranges@))
}

/// The classes of the series that `classes` loads as.
pub open spec fn series_of_ir(classes: Seq<ClassIr>) -> Seq<ClassView>
    decreases classes.len(),
{
    if classes.len() == 0 {
        Seq::empty()
    } else {
        appended(series_of_ir(classes.drop_last()), class_of_ir(classes.last()))
    }
}

/// Every range of every class of `ir`, if it is a series, is non-empty.
pub open spec fn ranges_ordered(ir: InstructionIr) -> bool {
    match ir {
        InstructionIr::Series { classes, .. } => forall|c: int, r: int|
            0 <= c < classes@.len() && 0 <= r < classes@[c].ranges@.len()
                ==> (#[trigger] classes@[c].ranges@[r]).0 <= classes@[c].ranges@[r].1,
        _ => true,
    }
}

/// Loading `ir` reaches a class range whose end lies below its start, on
/// which class insertion stops the program.
pub open spec fn load_panics(ir: Ir) -> bool {
    match ir {
        Ir::Error { .. } => false,
        Ir::Success { version, start, instructions } => {
            &&& version == VERSION
            &&& start < instructions.len()
            &&& exists|k: int| 0 <= k < instructions@.len() && !ranges_ordered(#[trigger] instructions@[k])
                && first_illegal(all_refs(instructions@.take(k)), instructions.len() as nat) is None
        },
    }
}

/// The rule name of an instruction of the representation.
pub open spec fn rule_name_of(ir: InstructionIr) -> Option<String> {
    match ir {
        InstructionIr::Sequence { rule_name, .. } | InstructionIr::Choice { rule_name, .. }
        | InstructionIr::NotAhead { rule_name, .. } | InstructionIr::Error { rule_name, .. }
        | InstructionIr::Label { rule_name, .. } | InstructionIr::Delegate { rule_name, .. }
        | InstructionIr::Series { rule_name, .. } => rule_name,
    }
}

impl Parser {
    /// Instruction `i` is what `ir` loads as, with the debug symbol of its
    /// rule name.
    pub(crate) open spec fn instruction_loaded(&self, i: usize, ir: InstructionIr) -> bool {
        &&& self.has(i)
        &&& match ir {
            InstructionIr::Sequence { first, second, .. } => self.ins(i) == Instruction::Sequence(InstructionId(first), InstructionId(second)),
            InstructionIr::Choice { first, second, .. } => self.ins(i) == Instruction::Choice(InstructionId(first), InstructionId(second)),
            InstructionIr::NotAhead { target, .. } => self.ins(i) == Instruction::NotAhead(InstructionId(target)),
            InstructionIr::Error { target, expected, .. } => self.ins(i) == Instruction::Error(InstructionId(target), ExpectedId(expected)),
            InstructionIr::Label { target, label, .. } => {
                &&& self.ins(i) matches Instruction::Label(t, l)
                &&& t == InstructionId(target)
                &&& self.labels.has(l.0)
                &&& self.labels.value(l.0)@ == label@
            },
            InstructionIr::Delegate { target, .. } => self.ins(i) == Instruction::Delegate(InstructionId(target)),
            InstructionIr::Series { classes, .. } => {
                &&& self.ins(i) matches Instruction::Series(s)
                &&& self.series.has(s.0)
                &&& self.series.value(s.0)@ == series_of_ir(classes@)
            },
        }
        &&& self.debug_symbols.has(i)
        &&& match rule_name_of(ir) {
            Some(name) => forall|k: Seq<u8>| self.debug_symbols.value(i).names@.contains(k) == (k == name.key()),
            None => self.debug_symbols.value(i).names@.len() == 0,
        }
    }

    /// The parser is what the instructions `instructions` load as, starting
    /// at `start`.
    pub closed spec fn loaded_from(&self, start: usize, instructions: Seq<InstructionIr>) -> bool {
        &&& self.loaded_wf()
        &&& self.expecteds@.len() == 0
        &&& self.size() == instructions.len()
        &&& self.start == InstructionId(start)
        &&& forall|i: usize| i < instructions.len() ==> #[trigger] self.instruction_loaded(i, instructions[i as int])
    }

    pub(crate) proof fn lemma_loaded_from(&self, start: usize, instructions: Seq<InstructionIr>)
        requires
            self.loaded_from(start, instructions),
        ensures
            self.loaded_wf(),
            self.expecteds@.len() == 0,
            self.size() == instructions.len(),
            self.start == InstructionId(start),
            forall|i: usize| i < instructions.len() ==> #[trigger] self.instruction_loaded(i, instructions[i as int]),
    {
    }

    /// Appends an instruction with its debug symbol.
    pub(crate) fn insert(&mut self, instruction: Instruction, symbol: DebugSymbol) -> (id: InstructionId)
        requires
            old(self).size() < usize::MAX,
        ensures
            id.0 == old(self).size(),
            final(self).instructions@ == old(self).instructions@.push(Some(instruction)),
            final(self).debug_symbols@.len() == if id.0 < old(self).debug_symbols@.len() {
                old(self).debug_symbols@.len() as int
            } else {
                id.0 + 1
            },
            final(self).debug_symbols@[id.0 as int] == Some(symbol),
            forall|j: int| 0 <= j < old(self).debug_symbols@.len() && j != id.0 ==> #[trigger] final(self).debug_symbols@[j] == old(self).debug_symbols@[j],
            forall|j: int| old(self).debug_symbols@.len() <= j < id.0 ==> #[trigger] final(self).debug_symbols@[j] is None,
            final(self).start == old(self).start,
            final(self).series == old(self).series,
            final(self).labels == old(self).labels,
            final(self).expecteds == old(self).expecteds,
    {
        let id: InstructionId = self.instructions.reserve();
        self.instructions.set(id, instruction);
        self.debug_symbols.set(id, symbol);
        assert(self.instructions@ =~= old(self).instructions@.push(Some(instruction)));
        id
    }
}

/// The message of a reference to a missing instruction.
fn illegal_id(id: usize) -> (message: String)
    ensures
        message@ == illegal_id_message(id),
{
    let mut message = String::from_str("Invalid IR: Illegal instruction ID: ");
    push_decimal(&mut message, id);
    message
}

/// The instruction `id`, if it is below `count`.
fn load_reference(id: usize, count: usize) -> (result: Result<InstructionId, String>)
    ensures
        id < count ==> result == Ok::<InstructionId, String>(InstructionId(id)),
        id >= count ==> (result matches Err(m) && m@ == illegal_id_message(id)),
{
    if id < count {
        Ok(InstructionId(id))
    } else {
        Err(illegal_id(id))
    }
}

/// The class that `ir` loads as.
fn load_class(ir: &ClassIr) -> (class: Class)
    requires
        forall|r: int| 0 <= r < ir.ranges@.len() ==> (#[trigger] ir.ranges@[r]).0 <= ir.ranges@[r].1,
    ensures
        class@ == class_of_ir(*ir),
{
    let mut class = Class::new(ir.negated);
    let mut r: usize = 0;
    while r < ir.ranges.len()
        invariant
            r <= ir.ranges@.len(),
            forall|r2: int| 0 <= r2 < ir.ranges@.len() ==> (#[trigger] ir.ranges@[r2]).0 <= ir.ranges@[r2].1,
            class@ == (ir.negated, ranges_of_ir(ir.ranges@.take(r as int))),
        decreases ir.ranges@.len() - r,
    {
        let (lower, upper) = ir.ranges[r];
        class.insert(lower, upper);
        proof {
            let t = ir.ranges@.take(r + 1);
            assert(t.drop_last() == ir.ranges@.take(r as int));
            assert(t.last() == (lower, upper));
        }
        r += 1;
    }
    assert(ir.ranges@.take(r as int) == ir.ranges@);
    class
}

/// The series that `classes` loads as.
fn load_series(classes: &Vec<ClassIr>) -> (series: Series)
    requires
        forall|c: int, r: int| 0 <= c < classes@.len() && 0 <= r < classes@[c].ranges@.len()
            ==> (#[trigger] classes@[c].ranges@[r]).0 <= classes@[c].ranges@[r].1,
    ensures
        series@ == series_of_ir(classes@),
{
    let mut series = Series::empty();
    let mut c: usize = 0;
    while c < classes.len()
        invariant
            c <= classes@.len(),
            forall|c2: int, r: int| 0 <= c2 < classes@.len() && 0 <= r < classes@[c2].ranges@.len()
                ==> (#[trigger] classes@[c2].ranges@[r]).0 <= classes@[c2].ranges@[r].1,
            series@ == series_of_ir(classes@.take(c as int)),
        decreases classes@.len() - c,
    {
        let class = load_class(&classes[c]);
        series.append(class);
        proof {
            let t = classes@.take(c + 1);
            assert(t.drop_last() == classes@.take(c as int));
            assert(t.last() == classes@[c as int]);
        }
        c += 1;
    }
    assert(classes@.take(c as int) == classes@);
    series
}

/// The debug symbol of a rule name.
fn symbol_of(rule_name: &Option<String>) -> (symbol: DebugSymbol)
    ensures
        match *rule_name {
            Some(name) => forall|k: Seq<u8>| symbol.names@.contains(k) == (k == name.key()),
            None => symbol.names@.len() == 0,
        },
{
    match rule_name {
        Some(name) => DebugSymbol::named(name.clone()),
        None => DebugSymbol::anonymous(),
    }
}

impl Parser {
    /// Loads the instruction `ir` as the next instruction.
    fn load_instruction(&mut self, ir: &InstructionIr, count: usize) -> (result: Result<(), String>)
        requires
            old(self).size() < count,
            old(self).debug_symbols@.len() == old(self).size(),
            old(self).series@.len() <= old(self).size(),
            old(self).labels@.len() <= old(self).size(),
            ranges_ordered(*ir),
        ensures
            first_illegal(refs_of(*ir), count as nat) matches Some(id) ==> (result matches Err(m) && m@ == illegal_id_message(id)),
            first_illegal(refs_of(*ir), count as nat) is Some ==> {
                &&& final(self).instructions == old(self).instructions
                &&& final(self).debug_symbols == old(self).debug_symbols
                &&& final(self).series == old(self).series
                &&& final(self).expecteds == old(self).expecteds
                &&& final(self).start == old(self).start
                &&& match *ir {
                    InstructionIr::Label { label, .. } => final(self).labels@.len() == old(self).labels@.len() + 1
                        && final(self).labels@.take(old(self).labels@.len() as int) == old(self).labels@
                        && (final(self).labels@.last() matches Some(l) && l@ == label@),
                    _ => final(self).labels == old(self).labels,
                }
            },
            first_illegal(refs_of(*ir), count as nat) is None ==> {
                &&& result is Ok
                &&& final(self).instructions@ == old(self).instructions@.push(Some(final(self).ins(old(self).size() as usize)))
                &&& final(self).debug_symbols@.len() == final(self).size()
                &&& forall|j: int| 0 <= j < old(self).size() ==> #[trigger] final(self).debug_symbols@[j] == old(self).debug_symbols@[j]
                &&& final(self).series@.len() <= final(self).size()
                &&& final(self).labels@.len() <= final(self).size()
                &&& final(self).series@.len() >= old(self).series@.len()
                &&& final(self).labels@.len() >= old(self).labels@.len()
                &&& forall|j: int| 0 <= j < old(self).series@.len() ==> #[trigger] final(self).series@[j] == old(self).series@[j]
                &&& forall|j: int| 0 <= j < old(self).labels@.len() ==> #[trigger] final(self).labels@[j] == old(self).labels@[j]
                &&& final(self).start == old(self).start
                &&& final(self).expecteds == old(self).expecteds
                &&& final(self).instruction_loaded(old(self).size() as usize, *ir)
            },
    {
        let ghost n = self.size();
        proof {
            match *ir {
                InstructionIr::Sequence { first, second, .. } | InstructionIr::Choice { first, second, .. } => lemma_first_illegal_small(first, second, count as nat),
                InstructionIr::Error { target, expected, .. } => lemma_first_illegal_small(target, expected, count as nat),
                InstructionIr::NotAhead { target, .. } | InstructionIr::Label { target, .. } | InstructionIr::Delegate { target, .. } => lemma_first_illegal_small(target, target, count as nat),
                InstructionIr::Series { .. } => {},
            }
        }
        match ir {
            InstructionIr::Sequence { first, second, rule_name } => {
                let first = match load_reference(*first, count) { Ok(id) => id, Err(m) => return Err(m) };
                let second = match load_reference(*second, count) { Ok(id) => id, Err(m) => return Err(m) };
                self.insert(Instruction::Sequence(first, second), symbol_of(rule_name));
            },
            InstructionIr::Choice { first, second, rule_name } => {
                let first = match load_reference(*first, count) { Ok(id) => id, Err(m) => return Err(m) };
                let second = match load_reference(*second, count) { Ok(id) => id, Err(m) => return Err(m) };
                self.insert(Instruction::Choice(first, second), symbol_of(rule_name));
            },
            InstructionIr::NotAhead { target, rule_name } => {
                let target = match load_reference(*target, count) { Ok(id) => id, Err(m) => return Err(m) };
                self.insert(Instruction::NotAhead(target), symbol_of(rule_name));
            },
            InstructionIr::Error { target, expected, rule_name } => {
                let target = match load_reference(*target, count) { Ok(id) => id, Err(m) => return Err(m) };
                let expected = match load_reference(*expected, count) { Ok(id) => id, Err(m) => return Err(m) };
                self.insert(Instruction::Error(target, ExpectedId(expected.0)), symbol_of(rule_name));
            },
            InstructionIr::Label { target, label, rule_name } => {
                let label: LabelId = self.labels.insert(label.clone());
                let target = match load_reference(*target, count) { Ok(id) => id, Err(m) => return Err(m) };
                self.insert(Instruction::Label(target, label), symbol_of(rule_name));
            },
            InstructionIr::Delegate { target, rule_name } => {
                let target = match load_reference(*target, count) { Ok(id) => id, Err(m) => return Err(m) };
                self.insert(Instruction::Delegate(target), symbol_of(rule_name));
            },
            InstructionIr::Series { classes, rule_name } => {
                let series = load_series(classes);
                let series: SeriesId = self.series.insert(series);
                self.insert(Instruction::Series(series), symbol_of(rule_name));
            },
        }
        Ok(())
    }

    /// Loads a parser from the intermediate representation, or fails with
    /// the message of what is wrong with it.
    pub fn load_ir(ir: &Ir) -> (result: Result<Parser, String>)
        requires
            !load_panics(*ir),
        ensures
            load_error(*ir) matches Some(m) ==> (result matches Err(e) && e@ == m),
            load_error(*ir) is None ==> (result matches Ok(p) && *ir matches Ir::Success { start, instructions, .. }
                && p.loaded_from(start, instructions@)),
    {
        match ir {
            Ir::Error { version, message } => {
                if *version != VERSION {
                    return Err(String::from_str("Malformed internal representation (invalid version)"));
                }
                Err(message.clone())
            },
            Ir::Success { version, start, instructions } => {
                if *version != VERSION {
                    return Err(String::from_str("Malformed internal representation (invalid version)"));
                }
                if !check_labels(instructions) {
                    return Err(String::from_str("Malformed internal representation (invalid label)"));
                }
                let count = instructions.len();
                let start = match load_reference(*start, count) { Ok(id) => id, Err(m) => return Err(m) };
                let mut parser = Parser::new();
                parser.start = start;
                let mut i: usize = 0;
                while i < count
                    invariant
                        count == instructions@.len(),
                        i <= count,
                        !load_panics(*ir),
                        *ir matches Ir::Success { version: v, start: s, instructions: ins } && v == VERSION && s == start.0 && ins == instructions,
                        start.0 < count,
                        labels_valid(instructions@),
                        parser.size() == i,
                        parser.start == start,
                        parser.expecteds@.len() == 0,
                        parser.debug_symbols@.len() == i,
                        parser.series@.len() <= i,
                        parser.labels@.len() <= i,
                        first_illegal(all_refs(instructions@.take(i as int)), count as nat) is None,
                        forall|j: usize| j < i ==> #[trigger] parser.instruction_loaded(j, instructions@[j as int]),
                    decreases count - i,
                {
                    proof {
                        assert(ranges_ordered(instructions@[i as int]));
                    }
                    let ghost before = parser;
                    let loaded = parser.load_instruction(&instructions[i], count);
                    proof {
                        let t = instructions@.take(i + 1);
                        assert(t.drop_last() == instructions@.take(i as int));
                        assert(t.last() == instructions@[i as int]);
                        lemma_first_illegal_concat(all_refs(instructions@.take(i as int)), refs_of(instructions@[i as int]), count as nat);
                    }
                    match loaded {
                        Ok(()) => {},
                        Err(m) => {
                            proof {
                                assert(first_illegal(all_refs(instructions@.take(i + 1)), count as nat) is Some);
                                lemma_first_illegal_prefix(instructions@, i + 1, count as nat);
                            }
                            return Err(m);
                        },
                    }
                    proof {
                        assert forall|j: usize| j < i + 1 implies #[trigger] parser.instruction_loaded(j, instructions@[j as int]) by {
                            if j < i {
                                lemma_loaded_frame(&before, &parser, j, instructions@[j as int]);
                            }
                        }
                    }
                    i += 1;
                }
                proof {
                    assert(instructions@.take(i as int) == instructions@);
                    assert(parser.instruction_loaded(start.0, instructions@[start.0 as int]));
                    lemma_loaded_wf(&parser, instructions@);
                }
                Ok(parser)
            },
        }
    }
}

/// Loading more instructions leaves those loaded before as they were.
proof fn lemma_loaded_frame(before: &Parser, after: &Parser, j: usize, ir: InstructionIr)
    requires
        before.instruction_loaded(j, ir),
        j < before.size(),
        before.size() <= after.size(),
        after.instructions@[j as int] == before.instructions@[j as int],
        j < before.debug_symbols@.len(),
        j < after.debug_symbols@.len(),
        after.debug_symbols@[j as int] == before.debug_symbols@[j as int],
        before.labels@.len() <= after.labels@.len(),
        forall|l: int| 0 <= l < before.labels@.len() ==> #[trigger] after.labels@[l] == before.labels@[l],
        before.series@.len() <= after.series@.len(),
        forall|l: int| 0 <= l < before.series@.len() ==> #[trigger] after.series@[l] == before.series@[l],
    ensures
        after.instruction_loaded(j, ir),
{
    assert(after.has(j));
    assert(after.ins(j) == before.ins(j));
    assert(after.debug_symbols.has(j));
    assert(after.debug_symbols.value(j) == before.debug_symbols.value(j));
    match ir {
        InstructionIr::Label { .. } => {
            if let Instruction::Label(_, l) = before.ins(j) {
                assert(after.labels@[l.0 as int] == before.labels@[l.0 as int]);
                assert(after.labels.has(l.0));
                assert(after.labels.value(l.0) == before.labels.value(l.0));
            }
        },
        InstructionIr::Series { .. } => {
            if let Instruction::Series(s) = before.ins(j) {
                assert(after.series@[s.0 as int] == before.series@[s.0 as int]);
            }
        },
        _ => {},
    }
}

/// When the references of a prefix have an illegal one, so do those of all
/// instructions, and it is the same one.
proof fn lemma_first_illegal_prefix(instructions: Seq<InstructionIr>, k: int, count: nat)
    requires
        0 <= k <= instructions.len(),
        first_illegal(all_refs(instructions.take(k)), count) is Some,
    ensures
        first_illegal(all_refs(instructions), count) == first_illegal(all_refs(instructions.take(k)), count),
    decreases instructions.len() - k,
{
    if k < instructions.len() {
        let t = instructions.take(k + 1);
        assert(t.drop_last() == instructions.take(k));
        lemma_first_illegal_concat(all_refs(instructions.take(k)), refs_of(instructions[k]), count);
        lemma_first_illegal_prefix(instructions, k + 1, count);
    } else {
        assert(instructions.take(k) == instructions);
    }
}

/// A parser whose instructions are all loaded, with references below their
/// number, is well formed as loaded.
proof fn lemma_loaded_wf(p: &Parser, instructions: Seq<InstructionIr>)
    requires
        p.size() == instructions.len(),
        p.has(p.start.0),
        first_illegal(all_refs(instructions), instructions.len() as nat) is None,
        forall|j: usize| j < instructions.len() ==> #[trigger] p.instruction_loaded(j, instructions[j as int]),
    ensures
        p.loaded_wf(),
{
    assert forall|i: usize| #[trigger] p.has(i) implies p.closed_at(i) && (p.ins(i) matches Instruction::Error(_, e) ==> p.has(e.0)) by {
        lemma_refs_legal(instructions, i as int, instructions.len() as nat);
        assert(p.instruction_loaded(i, instructions[i as int]));
        let refs = refs_of(instructions[i as int]);
        assert forall|r: int| 0 <= r < refs.len() implies p.has(#[trigger] refs[r]) by {
            assert(refs[r] < instructions.len());
            assert(p.instruction_loaded(refs[r], instructions[refs[r] as int]));
        }
        let succs = p.ins(i).succs();
        match instructions[i as int] {
            InstructionIr::Sequence { .. } | InstructionIr::Choice { .. } => {
                assert(p.has(refs[0]));
                assert(p.has(refs[1]));
                assert(succs[0].0 == refs[0]);
                assert(succs[1].0 == refs[1]);
            },
            InstructionIr::Error { .. } => {
                assert(p.has(refs[0]));
                assert(p.has(refs[1]));
                assert(succs[0].0 == refs[0]);
            },
            InstructionIr::NotAhead { .. } | InstructionIr::Label { .. } | InstructionIr::Delegate { .. } => {
                assert(p.has(refs[0]));
                assert(succs[0].0 == refs[0]);
            },
            InstructionIr::Series { .. } => {},
        }
        assert forall|k: int| 0 <= k < succs.len() implies p.has(#[trigger] succs[k].0) by {}
    }
    assert forall|i: usize| #[trigger] p.has(i) implies p.debug_symbols.has(i) by {
        assert(p.instruction_loaded(i, instructions[i as int]));
    }
    assert forall|i: usize| #[trigger] p.has(i) implies match p.ins(i) {
        Instruction::Series(s) => p.series.has(s.0),
        _ => true,
    } by {
        assert(p.instruction_loaded(i, instructions[i as int]));
    }
    assert forall|i: usize| #[trigger] p.has(i) implies match p.ins(i) {
        Instruction::Label(_, l) => p.labels.has(l.0),
        _ => true,
    } by {
        assert(p.instruction_loaded(i, instructions[i as int]));
    }
    assert(p.graph_wf());
    assert(p.body_wf());
    assert forall|i: usize| #[trigger] p.has(i) implies match p.ins(i) {
        Instruction::Error(_, e) => p.has(e.0),
        _ => true,
    } by {
        assert(p.closed_at(i));
    }
}

/// With no illegal reference among all, the references of each instruction
/// are below the count.
proof fn lemma_refs_legal(instructions: Seq<InstructionIr>, i: int, count: nat)
    requires
        0 <= i < instructions.len(),
        first_illegal(all_refs(instructions), count) is None,
    ensures
        forall|r: int| 0 <= r < refs_of(instructions[i]).len() ==> #[trigger] refs_of(instructions[i])[r] < count,
    decreases instructions.len(),
{
    lemma_first_illegal_concat(all_refs(instructions.drop_last()), refs_of(instructions.last()), count);
    if i == instructions.len() - 1 {
        lemma_first_illegal_none(refs_of(instructions.last()), count);
    } else {
        assert(instructions.drop_last()[i] == instructions[i]);
        lemma_refs_legal(instructions.drop_last(), i, count);
    }
}

proof fn lemma_first_illegal_none(refs: Seq<usize>, count: nat)
    requires
        first_illegal(refs, count) is None,
    ensures
        forall|r: int| 0 <= r < refs.len() ==> #[trigger] refs[r] < count,
    decreases refs.len(),
{
    if refs.len() > 0 {
        lemma_first_illegal_none(refs.drop_first(), count);
        assert forall|r: int| 0 <= r < refs.len() implies #[trigger] refs[r] < count by {
            if r > 0 {
                assert(refs.drop_first()[r - 1] == refs[r]);
            }
        }
    }
}

/// A loaded instruction keeps the parts of its representation in their
/// places: a sequence or a choice has the representation's first part
/// first and its second second, an instruction with a target has it as its
/// only part, and a series has none.
pub(crate) proof fn lemma_loaded_parts(p: &Parser, i: usize, ir: InstructionIr)
    requires
        p.instruction_loaded(i, ir),
    ensures
        match ir {
            InstructionIr::Sequence { first, second, .. } => p.ins(i) is Sequence
                && p.ins(i).succs() == seq![InstructionId(first), InstructionId(second)],
            InstructionIr::Choice { first, second, .. } => p.ins(i) is Choice
                && p.ins(i).succs() == seq![InstructionId(first), InstructionId(second)],
            InstructionIr::NotAhead { target, .. } => p.ins(i) is NotAhead && p.ins(i).succs() == seq![InstructionId(target)],
            InstructionIr::Error { target, expected, .. } => p.ins(i) is Error && p.ins(i).succs() == seq![InstructionId(target)]
                && (p.ins(i) matches Instruction::Error(_, e) && e.0 == expected),
            InstructionIr::Label { target, .. } => p.ins(i) is Label && p.ins(i).succs() == seq![InstructionId(target)],
            InstructionIr::Delegate { target, .. } => p.ins(i) is Delegate && p.ins(i).succs() == seq![InstructionId(target)],
            InstructionIr::Series { .. } => p.ins(i) is Series && p.ins(i).succs().len() == 0,
        },
{
}

} // verus!
