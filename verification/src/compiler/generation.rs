use crate::compiler::class::{class_matches, covers, ranges_valid};
use crate::compiler::instruction::{Instruction, InstructionId};
use crate::compiler::series::ClassView;
use crate::compiler::sorted_set::ByteKeyed;
use crate::compiler::Parser;
use crate::output::{Codegen, CodegenView, Statements, cg_line, cg_function, cg_newline, cg_close, cg_open, cg_write};
use crate::text::{decimal, push_decimal};
use vstd::prelude::*;

verus! {

/// The number of states of an instruction: one more than the times it
/// hands control to a successor and gets it back.
pub open spec fn stage_count(instruction: Instruction) -> nat {
    match instruction {
        Instruction::Sequence(_, _) | Instruction::Choice(_, _) => 3,
        Instruction::FirstChoice(_, _) | Instruction::NotAhead(_) | Instruction::Error(_, _)
        | Instruction::Label(_, _) | Instruction::Cache(_, _) => 2,
        Instruction::Delegate(_) | Instruction::Series(_) => 1,
    }
}

fn stages(instruction: Instruction) -> (count: usize)
    ensures
        count == stage_count(instruction),
{
    match instruction {
        Instruction::Sequence(_, _) | Instruction::Choice(_, _) => 3,
        Instruction::FirstChoice(_, _) | Instruction::NotAhead(_) | Instruction::Error(_, _)
        | Instruction::Label(_, _) | Instruction::Cache(_, _) => 2,
        Instruction::Delegate(_) | Instruction::Series(_) => 1,
    }
}

/// `STATE_id_stage`.
pub open spec fn const_name(id: nat, stage: nat) -> Seq<char> {
    "STATE_"@ + decimal(id) + "_"@ + decimal(stage)
}

/// `state_id_stage`.
pub open spec fn function_name(id: nat, stage: nat) -> Seq<char> {
    "state_"@ + decimal(id) + "_"@ + decimal(stage)
}

/// The name of the state `stage` of instruction `id`.
pub fn state_const_name(id: usize, stage: usize) -> (name: String)
    ensures
        name@ == const_name(id as nat, stage as nat),
{
    let mut name = String::from_str("STATE_");
    push_decimal(&mut name, id);
    name.append("_");
    push_decimal(&mut name, stage);
    name
}

/// The name of the function of the state `stage` of instruction `id`.
pub fn state_function_name(id: usize, stage: usize) -> (name: String)
    ensures
        name@ == function_name(id as nat, stage as nat),
{
    let mut name = String::from_str("state_");
    push_decimal(&mut name, id);
    name.append("_");
    push_decimal(&mut name, stage);
    name
}

/// The ASCII upper case of `c`.
pub open spec fn upper(c: char) -> char {
    if 'a' <= c <= 'z' { ((c as u32) - 32) as char } else { c }
}

/// `value` in Pascal case: each segment between underscores starts with an
/// upper case letter, and the underscores go. `start` says whether a
/// segment starts at the front of `value`.
pub open spec fn pascal(value: Seq<char>, start: bool) -> Seq<char>
    decreases value.len(),
{
    if value.len() == 0 {
        Seq::empty()
    } else if value[0] == '_' {
        pascal(value.drop_first(), true)
    } else {
        seq![if start { upper(value[0]) } else { value[0] }] + pascal(value.drop_first(), false)
    }
}

fn to_upper(c: char) -> (u: char)
    ensures
        u == upper(c),
{
    if 'a' <= c && c <= 'z' {
        let code = c as u8;
        let shifted = code - 32;
        assert(shifted == (c as u32) - 32);
        shifted as char
    } else {
        c
    }
}

/// A label's name in Pascal case.
pub fn pascal_case(value: &str) -> (result: String)
    ensures
        result@ == pascal(value@, true),
{
    let mut chars: Vec<char> = Vec::new();
    let length = value.unicode_len();
    let mut start = true;
    let mut i: usize = 0;
    assert(value@.skip(0) == value@);
    assert(chars@ + pascal(value@, true) == pascal(value@, true));
    while i < length
        invariant
            i <= length,
            length == value@.len(),
            chars@ + pascal(value@.skip(i as int), start) == pascal(value@, true),
        decreases length - i,
    {
        let c = value.get_char(i);
        proof {
            assert(value@.skip(i as int)[0] == c);
            assert(value@.skip(i as int).drop_first() == value@.skip(i + 1));
        }
        if c == '_' {
            start = true;
        } else {
            let pushed = if start { to_upper(c) } else { c };
            let ghost before = chars@;
            chars.push(pushed);
            assert(chars@ == before + seq![pushed]);
            start = false;
        }
        i += 1;
    }
    assert(value@.skip(i as int) =~= Seq::<char>::empty());
    assert(chars@ + Seq::<char>::empty() == chars@);
    crate::output::string_of_chars(&chars)
}

/// `ctx.name::<STATE_target_0, STATE_id_(stage+1)>();`: hands control to
/// `target` and comes back to the next state.
pub open spec fn continuing_line(name: Seq<char>, target: nat, id: nat, stage: nat) -> Seq<char> {
    "ctx."@ + name + "::<"@ + const_name(target, 0) + ", "@ + const_name(id, stage + 1) + ">();"@
}

/// `ctx.name::<STATE_target_0>();`: hands control to `target` for good.
pub open spec fn consuming_line(name: Seq<char>, target: nat) -> Seq<char> {
    "ctx."@ + name + "::<"@ + const_name(target, 0) + ">();"@
}

fn continuing(name: &str, target: usize, id: usize, stage: usize) -> (line: String)
    requires
        stage < usize::MAX,
    ensures
        line@ == continuing_line(name@, target as nat, id as nat, stage as nat),
{
    let mut line = String::from_str("ctx.");
    line.append(name);
    line.append("::<");
    line.append(state_const_name(target, 0).as_str());
    line.append(", ");
    line.append(state_const_name(id, stage + 1).as_str());
    line.append(">();");
    line
}

fn consuming(name: &str, target: usize) -> (line: String)
    ensures
        line@ == consuming_line(name@, target as nat),
{
    let mut line = String::from_str("ctx.");
    line.append(name);
    line.append("::<");
    line.append(state_const_name(target, 0).as_str());
    line.append(">();");
    line
}

impl Parser {
    /// The body line of the state `stage` of instruction `id`.
    pub(crate) open spec fn state_line(&self, id: nat, stage: nat, instruction: Instruction) -> Seq<char> {
        match instruction {
            Instruction::Sequence(first, second) => if stage == 0 {
                continuing_line("state_seq_start"@, first.0 as nat, id, stage)
            } else if stage == 1 {
                continuing_line("state_seq_middle"@, second.0 as nat, id, stage)
            } else {
                "ctx.state_seq_end();"@
            },
            Instruction::Choice(first, second) => if stage == 0 {
                continuing_line("state_choice_start"@, first.0 as nat, id, stage)
            } else if stage == 1 {
                continuing_line("state_choice_middle"@, second.0 as nat, id, stage)
            } else {
                "ctx.state_choice_end();"@
            },
            Instruction::FirstChoice(first, second) => if stage == 0 {
                continuing_line("state_first_choice_start"@, first.0 as nat, id, stage)
            } else {
                consuming_line("state_first_choice_middle"@, second.0 as nat)
            },
            Instruction::NotAhead(target) => if stage == 0 {
                continuing_line("state_not_ahead_start"@, target.0 as nat, id, stage)
            } else {
                "ctx.state_not_ahead_end();"@
            },
            Instruction::Error(target, _) => if stage == 0 {
                continuing_line("state_error_start"@, target.0 as nat, id, stage)
            } else {
                "ctx.state_error_end();"@
            },
            Instruction::Label(target, label) => if stage == 0 {
                continuing_line("state_label_start"@, target.0 as nat, id, stage)
            } else {
                "ctx.state_label_end(Label::"@ + pascal(self.labels.value(label.0)@, true) + ");"@
            },
            Instruction::Cache(target, _) => if stage == 0 {
                continuing_line("state_cache_start"@, target.0 as nat, id, stage)
            } else {
                "ctx.state_cache_end();"@
            },
            Instruction::Delegate(target) => consuming_line("state_delegate"@, target.0 as nat),
            Instruction::Series(series) => "ctx.state_series(series_"@ + decimal(series.0 as nat) + ");"@,
        }
    }

    /// The signature of the function of the state `stage` of instruction
    /// `id`.
    pub open spec fn state_signature(id: nat, stage: nat) -> Seq<char> {
        "unsafe fn "@ + function_name(id, stage) + "<I: Input + ?Sized>(ctx: &mut Context<I, Impl>)"@
    }

    /// What the function of the state `stage` of instruction `id` adds.
    pub(crate) open spec fn state_function_text(&self, v: CodegenView, id: nat, stage: nat, instruction: Instruction) -> CodegenView {
        cg_newline(cg_close(cg_line(cg_function(v, Self::state_signature(id, stage)), self.state_line(id, stage, instruction))))
    }

    /// Writes the function of the state `stage` of instruction `id`.
    fn generate_state_function(&self, codegen: &mut Codegen, id: InstructionId, stage: usize)
        requires
            self.wf(),
            self.has(id.0),
            stage < stage_count(self.ins(id.0)),
            old(codegen)@.1 < usize::MAX,
        ensures
            final(codegen)@ == self.state_function_text(old(codegen)@, id.0 as nat, stage as nat, self.ins(id.0)),
    {
        let mut signature = String::from_str("unsafe fn ");
        signature.append(state_function_name(id.0, stage).as_str());
        signature.append("<I: Input + ?Sized>(ctx: &mut Context<I, Impl>)");
        let function = codegen.function(signature.as_str());
        let instruction = self.instruction(id);
        let line: String = match instruction {
            Instruction::Sequence(first, second) => if stage == 0 {
                continuing("state_seq_start", first.0, id.0, stage)
            } else if stage == 1 {
                continuing("state_seq_middle", second.0, id.0, stage)
            } else {
                String::from_str("ctx.state_seq_end();")
            },
            Instruction::Choice(first, second) => if stage == 0 {
                continuing("state_choice_start", first.0, id.0, stage)
            } else if stage == 1 {
                continuing("state_choice_middle", second.0, id.0, stage)
            } else {
                String::from_str("ctx.state_choice_end();")
            },
            Instruction::FirstChoice(first, second) => if stage == 0 {
                continuing("state_first_choice_start", first.0, id.0, stage)
            } else {
                consuming("state_first_choice_middle", second.0)
            },
            Instruction::NotAhead(target) => if stage == 0 {
                continuing("state_not_ahead_start", target.0, id.0, stage)
            } else {
                String::from_str("ctx.state_not_ahead_end();")
            },
            Instruction::Error(target, _) => if stage == 0 {
                continuing("state_error_start", target.0, id.0, stage)
            } else {
                String::from_str("ctx.state_error_end();")
            },
            Instruction::Label(target, label) => if stage == 0 {
                continuing("state_label_start", target.0, id.0, stage)
            } else {
                proof {
                    assert(self.labels.has(label.0));
                }
                let mut text = String::from_str("ctx.state_label_end(Label::");
                text.append(pascal_case(self.labels.get(label).as_str()).as_str());
                text.append(");");
                text
            },
            Instruction::Cache(target, _) => if stage == 0 {
                continuing("state_cache_start", target.0, id.0, stage)
            } else {
                String::from_str("ctx.state_cache_end();")
            },
            Instruction::Delegate(target) => consuming("state_delegate", target.0),
            Instruction::Series(series) => {
                let mut text = String::from_str("ctx.state_series(series_");
                push_decimal(&mut text, series.0);
                text.append(");");
                text
            },
        };
        let mut function = function;
        function.line(codegen, line.as_str());
        function.finish(codegen);
    }
}

/// The states of the instructions below `n`: each instruction with each
/// of its stages, in order.
pub(crate) open spec fn states_below(p: &Parser, n: nat) -> Seq<(nat, nat)>
    decreases n,
{
    if n == 0 {
        Seq::empty()
    } else {
        let i = (n - 1) as nat;
        states_below(p, i) + if p.has(i as usize) {
            Seq::new(stage_count(p.ins(i as usize)), |s: int| (i, s as nat))
        } else {
            Seq::empty()
        }
    }
}

/// The states of all instructions.
pub(crate) open spec fn states_of(p: &Parser) -> Seq<(nat, nat)> {
    states_below(p, p.size())
}

impl Parser {
    /// What the functions of `states` add, in order.
    pub(crate) open spec fn state_functions_text(&self, v: CodegenView, states: Seq<(nat, nat)>) -> CodegenView
        decreases states.len(),
    {
        if states.len() == 0 {
            v
        } else {
            let (id, stage) = states.last();
            self.state_function_text(self.state_functions_text(v, states.drop_last()), id, stage, self.ins(id as usize))
        }
    }

    /// Writes the functions of all states.
    fn generate_state_functions(&self, codegen: &mut Codegen)
        requires
            self.wf(),
            old(codegen)@.1 == 0,
        ensures
            final(codegen)@ == self.state_functions_text(old(codegen)@, states_of(self)),
            final(codegen)@.1 == 0,
    {
        let n = self.instructions.next_index();
        let mut i: usize = 0;
        let ghost start = codegen@;
        while i < n
            invariant
                n == self.size(),
                i <= n,
                self.wf(),
                codegen@.1 == 0,
                codegen@ == self.state_functions_text(start, states_below(self, i as nat)),
            decreases n - i,
        {
            if self.instructions.contains(InstructionId(i)) {
                let count = stages(self.instruction(InstructionId(i)));
                let mut stage: usize = 0;
                while stage < count
                    invariant
                        n == self.size(),
                        i < n,
                        self.wf(),
                        self.has(i),
                        count == stage_count(self.ins(i)),
                        stage <= count,
                        codegen@.1 == 0,
                        codegen@ == self.state_functions_text(start, states_below(self, i as nat)
                            + Seq::new(stage as nat, |s: int| (i as nat, s as nat))),
                    decreases count - stage,
                {
                    self.generate_state_function(codegen, InstructionId(i), stage);
                    proof {
                        let prefix = states_below(self, i as nat) + Seq::new(stage as nat, |s: int| (i as nat, s as nat));
                        let next = states_below(self, i as nat) + Seq::new((stage + 1) as nat, |s: int| (i as nat, s as nat));
                        assert(next.drop_last() =~= prefix);
                        assert(next.last() == (i as nat, stage as nat));
                    }
                    stage += 1;
                }
                proof {
                    assert(states_below(self, (i + 1) as nat) =~= states_below(self, i as nat)
                        + Seq::new(count as nat, |s: int| (i as nat, s as nat)));
                }
            } else {
                proof {
                    assert(states_below(self, (i + 1) as nat) =~= states_below(self, i as nat));
                }
            }
            i += 1;
        }
    }
}

/// `const STATE_id_stage: State = number;`.
pub open spec fn const_line(id: nat, stage: nat, number: nat) -> Seq<char> {
    "const "@ + const_name(id, stage) + ": State = "@ + decimal(number) + ";"@
}

/// What the constants of `states` add: state `k` is numbered `k + 1`.
pub open spec fn constants_text(v: CodegenView, states: Seq<(nat, nat)>) -> CodegenView
    decreases states.len(),
{
    if states.len() == 0 {
        v
    } else {
        let (id, stage) = states.last();
        cg_line(constants_text(v, states.drop_last()), const_line(id, stage, states.len()))
    }
}

/// `name(ctx)`: the case of the dispatch for a state.
pub open spec fn dispatch_case(id: nat, stage: nat) -> Seq<char> {
    function_name(id, stage) + "(ctx)"@
}

/// What the cases of `states` add to the dispatch.
pub open spec fn dispatch_cases_text(v: CodegenView, states: Seq<(nat, nat)>) -> CodegenView
    decreases states.len(),
{
    if states.len() == 0 {
        v
    } else {
        let (id, stage) = states.last();
        let w = dispatch_cases_text(v, states.drop_last());
        cg_line(cg_write(cg_write(cg_write(w, const_name(id, stage)), " => "@), dispatch_case(id, stage)), seq![','])
    }
}

/// The signature of the dispatch function.
pub open spec fn dispatch_signature() -> Seq<char> {
    "unsafe fn dispatch<I: Input + ?Sized>(state: State, ctx: &mut Context<I, Impl>)"@
}

/// What the dispatch function adds: a match from each state to its
/// function.
pub open spec fn dispatch_text(v: CodegenView, states: Seq<(nat, nat)>) -> CodegenView {
    let opened = cg_open(cg_write(cg_write(cg_write(cg_function(v, dispatch_signature()), "match "@), "state"@), seq![' ']));
    let cases = dispatch_cases_text(opened, states);
    let last = cg_line(cg_write(cg_write(cg_write(cases, "_"@), " => "@), "std::hint::unreachable_unchecked()"@), seq![',']);
    cg_newline(cg_close(cg_close(last)))
}

/// The list of the states of `p`, in order.
fn state_list(p: &Parser) -> (states: Vec<(usize, usize)>)
    requires
        p.wf(),
    ensures
        states@.len() == states_of(p).len(),
        forall|k: int| 0 <= k < states@.len() ==> (#[trigger] states@[k]).0 as nat == states_of(p)[k].0
            && states@[k].1 as nat == states_of(p)[k].1,
{
    let n = p.instructions.next_index();
    let mut states: Vec<(usize, usize)> = Vec::new();
    let mut i: usize = 0;
    while i < n
        invariant
            n == p.size(),
            i <= n,
            p.wf(),
            states@.len() == states_below(p, i as nat).len(),
            forall|k: int| 0 <= k < states@.len() ==> (#[trigger] states@[k]).0 as nat == states_below(p, i as nat)[k].0
                && states@[k].1 as nat == states_below(p, i as nat)[k].1,
        decreases n - i,
    {
        let ghost before = states@;
        if p.instructions.contains(InstructionId(i)) {
            let count = stages(p.instruction(InstructionId(i)));
            let mut stage: usize = 0;
            while stage < count
                invariant
                    stage <= count,
                    i < n,
                    count == stage_count(p.ins(i)),
                    states@.len() == before.len() + stage,
                    forall|k: int| 0 <= k < before.len() ==> #[trigger] states@[k] == before[k],
                    forall|k: int| before.len() <= k < states@.len() ==> (#[trigger] states@[k]) == (i, (k - before.len()) as usize),
                decreases count - stage,
            {
                states.push((i, stage));
                stage += 1;
            }
            proof {
                let next = states_below(p, (i + 1) as nat);
                assert(next =~= states_below(p, i as nat) + Seq::new(count as nat, |s: int| (i as nat, s as nat)));
                assert forall|k: int| 0 <= k < states@.len() implies (#[trigger] states@[k]).0 as nat == next[k].0
                    && states@[k].1 as nat == next[k].1 by {
                    if k < before.len() {
                        assert(states@[k] == before[k]);
                    }
                }
            }
        } else {
            proof {
                assert(states_below(p, (i + 1) as nat) =~= states_below(p, i as nat));
            }
        }
        i += 1;
    }
    states
}

impl Parser {
    /// Writes a constant for each state.
    fn generate_state_constants(&self, codegen: &mut Codegen)
        requires
            self.wf(),
        ensures
            final(codegen)@ == cg_newline(constants_text(old(codegen)@, states_of(self))),
            final(codegen)@.1 == old(codegen)@.1,
    {
        let states = state_list(self);
        let ghost all = states_of(self);
        let mut k: usize = 0;
        while k < states.len()
            invariant
                k <= states@.len(),
                states@.len() == all.len(),
                forall|j: int| 0 <= j < states@.len() ==> (#[trigger] states@[j]).0 as nat == all[j].0
                    && states@[j].1 as nat == all[j].1,
                codegen@ == constants_text(old(codegen)@, all.take(k as int)),
                codegen@.1 == old(codegen)@.1,
            decreases states@.len() - k,
        {
            let (id, stage) = states[k];
            let mut line = String::from_str("const ");
            line.append(state_const_name(id, stage).as_str());
            line.append(": State = ");
            push_decimal(&mut line, k + 1);
            line.append(";");
            codegen.line(line.as_str());
            proof {
                assert(all.take(k + 1).drop_last() =~= all.take(k as int));
                assert(all.take(k + 1).last() == all[k as int]);
            }
            k += 1;
        }
        assert(all.take(k as int) =~= all);
        codegen.newline();
    }

    /// Writes the dispatch function.
    fn generate_dispatch_function(&self, codegen: &mut Codegen)
        requires
            self.wf(),
            old(codegen)@.1 == 0,
        ensures
            final(codegen)@ == dispatch_text(old(codegen)@, states_of(self)),
            final(codegen)@.1 == 0,
    {
        let mut function = codegen.function("unsafe fn dispatch<I: Input + ?Sized>(state: State, ctx: &mut Context<I, Impl>)");
        let mut switch = function.match_statement(codegen, "state");
        let states = state_list(self);
        let ghost all = states_of(self);
        let ghost opened = codegen@;
        let mut k: usize = 0;
        while k < states.len()
            invariant
                k <= states@.len(),
                states@.len() == all.len(),
                forall|j: int| 0 <= j < states@.len() ==> (#[trigger] states@[j]).0 as nat == all[j].0
                    && states@[j].1 as nat == all[j].1,
                codegen@ == dispatch_cases_text(opened, all.take(k as int)),
                codegen@.1 == 2,
            decreases states@.len() - k,
        {
            let (id, stage) = states[k];
            let mut case = state_function_name(id, stage);
            case.append("(ctx)");
            switch.case_line(codegen, state_const_name(id, stage).as_str(), case.as_str());
            proof {
                assert(all.take(k + 1).drop_last() =~= all.take(k as int));
                assert(all.take(k + 1).last() == all[k as int]);
            }
            k += 1;
        }
        assert(all.take(k as int) =~= all);
        switch.case_line(codegen, "_", "std::hint::unreachable_unchecked()");
        switch.finish(codegen);
        function.finish(codegen);
    }
}

/// `true` or `false`.
pub open spec fn bool_text(b: bool) -> Seq<char> {
    if b { "true"@ } else { "false"@ }
}

fn bool_string(b: bool) -> (text: &'static str)
    ensures
        text@ == bool_text(b),
{
    if b { "true" } else { "false" }
}

/// The attribute line before each comparison of a class function.
pub open spec fn allow_comparisons() -> Seq<char> {
    "#[allow(unused_comparisons)]"@
}

/// What an `if` around a line adds.
pub open spec fn if_line_text(v: CodegenView, control: Seq<char>, line: Seq<char>) -> CodegenView {
    cg_close(cg_line(cg_open(cg_write(cg_write(cg_write(v, "if "@), control), seq![' '])), line))
}

/// `lower <= char && char <= upper`.
pub open spec fn range_test(range: (u8, u8)) -> Seq<char> {
    decimal(range.0 as nat) + " <= char && char <= "@ + decimal(range.1 as nat)
}

/// `return value;`.
pub open spec fn return_line(value: bool) -> Seq<char> {
    "return "@ + bool_text(value) + ";"@
}

/// What the tests of a few ranges add: one `if` each.
pub open spec fn flat_ranges_text(v: CodegenView, ranges: Seq<(u8, u8)>, negated: bool) -> CodegenView
    decreases ranges.len(),
{
    if ranges.len() == 0 {
        v
    } else {
        let w = flat_ranges_text(v, ranges.drop_last(), negated);
        if_line_text(cg_line(w, allow_comparisons()), range_test(ranges.last()), return_line(!negated))
    }
}

/// What the tests of `ranges` add: up to three ranges are tested in turn;
/// more are split at the start of the middle one.
pub open spec fn ranges_text(v: CodegenView, ranges: Seq<(u8, u8)>, negated: bool) -> CodegenView
    decreases ranges.len(),
{
    if ranges.len() <= 3 {
        flat_ranges_text(v, ranges, negated)
    } else {
        let mid = ranges.len() / 2;
        let threshold = decimal(ranges[mid as int].0 as nat);
        let below_open = cg_open(cg_write(cg_write(cg_write(cg_line(v, allow_comparisons()), "if "@), "char < "@ + threshold), seq![' ']));
        let below = cg_close(ranges_text(below_open, ranges.take(mid as int), negated));
        let above_open = cg_open(cg_write(cg_write(cg_write(cg_line(below, allow_comparisons()), "if "@), "char >= "@ + threshold), seq![' ']));
        cg_close(ranges_text(above_open, ranges.skip(mid as int), negated))
    }
}

/// The signature of the function of class `index` of series `series`.
pub open spec fn class_signature(series: nat, index: nat) -> Seq<char> {
    "fn class_"@ + decimal(series) + "_"@ + decimal(index) + "(char: u8) -> bool"@
}

/// What the function of a class adds.
pub open spec fn class_function_text(v: CodegenView, series: nat, index: nat, class: ClassView) -> CodegenView {
    let body = ranges_text(cg_function(v, class_signature(series, index)), class.1, class.0);
    cg_newline(cg_close(cg_line(body, bool_text(class.0))))
}

/// In the function of a class, the test of each range returns whether the
/// class matches the bytes of that range: `true` for a plain class,
/// `false` for a negated one.
pub proof fn lemma_range_test_answers(v: CodegenView, ranges: Seq<(u8, u8)>, negated: bool)
    requires
        ranges.len() > 0,
        ranges_valid(ranges),
    ensures
        class_matches((negated, ranges), ranges.last().0) == !negated,
        flat_ranges_text(v, ranges, negated) == if_line_text(
            cg_line(flat_ranges_text(v, ranges.drop_last(), negated), allow_comparisons()),
            range_test(ranges.last()),
            if class_matches((negated, ranges), ranges.last().0) { "return true;"@ } else { "return false;"@ },
        ),
{
    let last = ranges.len() - 1;
    assert(ranges[last].0 <= ranges.last().0 <= ranges[last].1);
    assert(covers(ranges, ranges.last().0));
    reveal_strlit("return ");
    reveal_strlit("true");
    reveal_strlit("false");
    reveal_strlit(";");
    reveal_strlit("return true;");
    reveal_strlit("return false;");
    assert(return_line(true) =~= "return true;"@);
    assert(return_line(false) =~= "return false;"@);
}

/// The function of a class ends by returning whether the class matches a
/// byte that none of its ranges holds.
pub proof fn lemma_class_default_answer(v: CodegenView, series: nat, index: nat, class: ClassView, b: u8)
    requires
        !covers(class.1, b),
    ensures
        class_function_text(v, series, index, class) == cg_newline(cg_close(cg_line(
            ranges_text(cg_function(v, class_signature(series, index)), class.1, class.0),
            if class_matches(class, b) { "true"@ } else { "false"@ },
        ))),
{
}

/// The states of an instruction hand control to its parts in order: the
/// first state of a sequence, choice or first choice runs the first part
/// and comes back to the second state, whose turn runs the second part (and
/// comes back to the third, but for a first choice, which hands its second
/// branch control for good); the first state of an instruction with one
/// target runs it, and a delegate hands its target control for good.
pub(crate) proof fn lemma_state_lines_order(p: &Parser, id: nat, instruction: Instruction)
    ensures
        match instruction {
            Instruction::Sequence(first, second) => {
                &&& p.state_line(id, 0, instruction) == "ctx."@ + "state_seq_start"@ + "::<"@ + const_name(first.0 as nat, 0) + ", "@ + const_name(id, 1) + ">();"@
                &&& p.state_line(id, 1, instruction) == "ctx."@ + "state_seq_middle"@ + "::<"@ + const_name(second.0 as nat, 0) + ", "@ + const_name(id, 2) + ">();"@
            },
            Instruction::Choice(first, second) => {
                &&& p.state_line(id, 0, instruction) == "ctx."@ + "state_choice_start"@ + "::<"@ + const_name(first.0 as nat, 0) + ", "@ + const_name(id, 1) + ">();"@
                &&& p.state_line(id, 1, instruction) == "ctx."@ + "state_choice_middle"@ + "::<"@ + const_name(second.0 as nat, 0) + ", "@ + const_name(id, 2) + ">();"@
            },
            Instruction::FirstChoice(first, second) => {
                &&& p.state_line(id, 0, instruction) == "ctx."@ + "state_first_choice_start"@ + "::<"@ + const_name(first.0 as nat, 0) + ", "@ + const_name(id, 1) + ">();"@
                &&& p.state_line(id, 1, instruction) == "ctx."@ + "state_first_choice_middle"@ + "::<"@ + const_name(second.0 as nat, 0) + ">();"@
            },
            Instruction::Delegate(target) => p.state_line(id, 0, instruction) == "ctx."@ + "state_delegate"@ + "::<"@ + const_name(target.0 as nat, 0) + ">();"@,
            Instruction::Series(_) => true,
            _ => exists|name: Seq<char>| p.state_line(id, 0, instruction)
                == "ctx."@ + name + "::<"@ + const_name(#[trigger] instruction.succs()[0].0 as nat, 0) + ", "@ + const_name(id, 1) + ">();"@,
        },
{
    match instruction {
        Instruction::NotAhead(_) => {
            assert(p.state_line(id, 0, instruction) == continuing_line("state_not_ahead_start"@, instruction.succs()[0].0 as nat, id, 0));
        },
        Instruction::Error(_, _) => {
            assert(p.state_line(id, 0, instruction) == continuing_line("state_error_start"@, instruction.succs()[0].0 as nat, id, 0));
        },
        Instruction::Label(_, _) => {
            assert(p.state_line(id, 0, instruction) == continuing_line("state_label_start"@, instruction.succs()[0].0 as nat, id, 0));
        },
        Instruction::Cache(_, _) => {
            assert(p.state_line(id, 0, instruction) == continuing_line("state_cache_start"@, instruction.succs()[0].0 as nat, id, 0));
        },
        _ => {},
    }
}

/// Writes the tests of `ranges`.
fn generate_class_ranges(codegen: &mut Codegen, ranges: &[(u8, u8)], negated: bool)
    requires
        old(codegen)@.1 + ranges@.len() < usize::MAX,
    ensures
        final(codegen)@ == ranges_text(old(codegen)@, ranges@, negated),
        final(codegen)@.1 == old(codegen)@.1,
    decreases ranges@.len(),
{
    if ranges.len() <= 3 {
        let mut k: usize = 0;
        while k < ranges.len()
            invariant
                k <= ranges@.len(),
                ranges@.len() <= 3,
                codegen@.1 == old(codegen)@.1,
                old(codegen)@.1 + ranges@.len() < usize::MAX,
                codegen@ == flat_ranges_text(old(codegen)@, ranges@.take(k as int), negated),
            decreases ranges@.len() - k,
        {
            let (lower, upper) = ranges[k];
            codegen.line("#[allow(unused_comparisons)]");
            let mut control = crate::text::decimal_string(lower as usize);
            control.append(" <= char && char <= ");
            push_decimal(&mut control, upper as usize);
            let mut block = Statements { end: crate::output::BlockEnd::Block };
            let mut branch = block.if_statement(codegen, control.as_str());
            let mut line = String::from_str("return ");
            line.append(bool_string(!negated));
            line.append(";");
            branch.line(codegen, line.as_str());
            branch.finish(codegen);
            proof {
                assert(ranges@.take(k + 1).drop_last() =~= ranges@.take(k as int));
                assert(ranges@.take(k + 1).last() == ranges@[k as int]);
            }
            k += 1;
        }
        assert(ranges@.take(k as int) =~= ranges@);
    } else {
        let mid = ranges.len() / 2;
        let threshold = ranges[mid].0;
        let mut block = Statements { end: crate::output::BlockEnd::Block };
        codegen.line("#[allow(unused_comparisons)]");
        let mut control = String::from_str("char < ");
        push_decimal(&mut control, threshold as usize);
        let below = block.if_statement(codegen, control.as_str());
        generate_class_ranges(codegen, &ranges[0..mid], negated);
        below.finish(codegen);
        codegen.line("#[allow(unused_comparisons)]");
        let mut control = String::from_str("char >= ");
        push_decimal(&mut control, threshold as usize);
        let above = block.if_statement(codegen, control.as_str());
        generate_class_ranges(codegen, &ranges[mid..ranges.len()], negated);
        above.finish(codegen);
    }
}

/// A case of a match: `pattern => line,`.
pub open spec fn case_text(v: CodegenView, pattern: Seq<char>, line: Seq<char>) -> CodegenView {
    cg_line(cg_write(cg_write(cg_write(v, pattern), " => "@), line), seq![','])
}

/// `Some(char) if class_series_index(char)`.
pub open spec fn class_pattern(series: nat, index: nat) -> Seq<char> {
    "Some(char) if class_"@ + decimal(series) + "_"@ + decimal(index) + "(char)"@
}

/// What the match of one class of a series function adds.
pub open spec fn class_match_text(v: CodegenView, series: nat, index: nat) -> CodegenView {
    let opened = cg_open(cg_write(cg_write(cg_write(v, "match "@), "input.get(position + length)"@), seq![' ']));
    let first = case_text(opened, class_pattern(series, index), "length += 1"@);
    let second = case_text(first, "_"@, "return (false, length + 1)"@);
    cg_newline(cg_close(second))
}

/// What the matches of the first `count` classes add.
pub open spec fn class_matches_text(v: CodegenView, series: nat, count: nat) -> CodegenView
    decreases count,
{
    if count == 0 {
        v
    } else {
        class_match_text(class_matches_text(v, series, (count - 1) as nat), series, (count - 1) as nat)
    }
}

/// What the functions of the first `count` classes of `classes` add.
pub open spec fn class_functions_text(v: CodegenView, series: nat, classes: Seq<ClassView>, count: nat) -> CodegenView
    decreases count,
{
    if count == 0 {
        v
    } else {
        class_function_text(class_functions_text(v, series, classes, (count - 1) as nat), series, (count - 1) as nat, classes[count - 1])
    }
}

/// The signature of the function of series `id`.
pub open spec fn series_signature(id: nat) -> Seq<char> {
    "fn series_"@ + decimal(id) + "<I: Input + ?Sized>(input: &I, position: usize) -> (bool, usize)"@
}

/// What the function of a series, and those of its classes, add.
pub open spec fn series_function_text(v: CodegenView, id: nat, classes: Seq<ClassView>) -> CodegenView {
    let f = cg_function(v, series_signature(id));
    if crate::compiler::series::has_never(classes) {
        cg_newline(cg_close(cg_line(f, "(false, 0)"@)))
    } else {
        let body = class_matches_text(cg_newline(cg_line(f, "let mut length = 0;"@)), id, classes.len());
        let closed = cg_newline(cg_close(cg_line(body, "(true, length)"@)));
        class_functions_text(closed, id, classes, classes.len())
    }
}

impl Parser {
    /// What the functions of the series below `n` add.
    pub(crate) open spec fn series_functions_text(&self, v: CodegenView, n: nat) -> CodegenView
        decreases n,
    {
        if n == 0 {
            v
        } else {
            let w = self.series_functions_text(v, (n - 1) as nat);
            if self.series.has((n - 1) as usize) {
                series_function_text(w, (n - 1) as nat, self.series.value((n - 1) as usize)@)
            } else {
                w
            }
        }
    }

    /// Writes the function of each series.
    fn generate_series_functions(&self, codegen: &mut Codegen)
        requires
            old(codegen)@.1 == 0,
        ensures
            final(codegen)@ == self.series_functions_text(old(codegen)@, self.series@.len()),
            final(codegen)@.1 == 0,
    {
        let n = self.series.next_index();
        let mut i: usize = 0;
        while i < n
            invariant
                n == self.series@.len(),
                i <= n,
                codegen@.1 == 0,
                codegen@ == self.series_functions_text(old(codegen)@, i as nat),
            decreases n - i,
        {
            if self.series.contains(crate::compiler::instruction::SeriesId(i)) {
                generate_series_function(codegen, i, self.series.get(crate::compiler::instruction::SeriesId(i)));
            }
            i += 1;
        }
    }
}

/// Writes the function of series `id`, and those of its classes.
fn generate_series_function(codegen: &mut Codegen, id: usize, series: &crate::compiler::series::Series)
    requires
        old(codegen)@.1 == 0,
    ensures
        final(codegen)@ == series_function_text(old(codegen)@, id as nat, series@),
        final(codegen)@.1 == 0,
{
    let mut signature = String::from_str("fn series_");
    push_decimal(&mut signature, id);
    signature.append("<I: Input + ?Sized>(input: &I, position: usize) -> (bool, usize)");
    let mut function = codegen.function(signature.as_str());
    if series.is_never() {
        function.line(codegen, "(false, 0)");
        function.finish(codegen);
        return;
    }
    function.line(codegen, "let mut length = 0;");
    function.newline(codegen);
    let classes = series.classes();
    let ghost opened = codegen@;
    let mut i: usize = 0;
    while i < classes.len()
        invariant
            i <= classes@.len(),
            codegen@.1 == 1,
            codegen@ == class_matches_text(opened, id as nat, i as nat),
            function.end == crate::output::BlockEnd::Function,
        decreases classes@.len() - i,
    {
        let mut char_match = function.match_statement(codegen, "input.get(position + length)");
        let mut pattern = String::from_str("Some(char) if class_");
        push_decimal(&mut pattern, id);
        pattern.append("_");
        push_decimal(&mut pattern, i);
        pattern.append("(char)");
        char_match.case_line(codegen, pattern.as_str(), "length += 1");
        char_match.case_line(codegen, "_", "return (false, length + 1)");
        char_match.finish(codegen);
        function.newline(codegen);
        i += 1;
    }
    function.line(codegen, "(true, length)");
    function.finish(codegen);
    let ghost closed = codegen@;
    let mut i: usize = 0;
    while i < classes.len()
        invariant
            i <= classes@.len(),
            classes@.len() == series@.len(),
            forall|j: int| 0 <= j < classes@.len() ==> (#[trigger] classes@[j])@ == series@[j],
            codegen@.1 == 0,
            codegen@ == class_functions_text(closed, id as nat, series@, i as nat),
        decreases classes@.len() - i,
    {
        let class = &classes[i];
        let mut signature = String::from_str("fn class_");
        push_decimal(&mut signature, id);
        signature.append("_");
        push_decimal(&mut signature, i);
        signature.append("(char: u8) -> bool");
        let function = codegen.function(signature.as_str());
        let ranges = class.ranges();
        proof {
            crate::compiler::class::lemma_ranges_wf_len(ranges@);
        }
        generate_class_ranges(codegen, ranges.as_slice(), class.negated());
        codegen.line(bool_string(class.negated()));
        function.finish(codegen);
        i += 1;
    }
}

/// What the lines of `lines` add.
pub open spec fn lines_text(v: CodegenView, lines: Seq<Seq<char>>) -> CodegenView
    decreases lines.len(),
{
    if lines.len() == 0 {
        v
    } else {
        cg_line(lines_text(v, lines.drop_last()), lines.last())
    }
}

/// What the enumeration of the labels adds, with the variants of `names`
/// in order.
pub open spec fn labels_text(v: CodegenView, names: Seq<String>) -> CodegenView {
    let derive = cg_line(v, "#[derive(Debug, Copy, Clone, Eq, PartialEq, Hash)]"@);
    let opened = cg_open(cg_write(cg_write(cg_write(cg_write(derive, "pub "@), "enum "@), "Label"@), seq![' ']));
    cg_newline(cg_close(variants_text(opened, names)))
}

/// What the variants of `names` add.
pub open spec fn variants_text(v: CodegenView, names: Seq<String>) -> CodegenView
    decreases names.len(),
{
    if names.len() == 0 {
        v
    } else {
        cg_line(cg_write(variants_text(v, names.drop_last()), pascal(names.last()@, true)), seq![','])
    }
}

/// The first line of the runtime module.
fn path_attribute() -> (line: String)
    ensures
        line@ == "#["@ + "path = \"build/runtime/mod.rs\"]"@,
{
    let mut line = String::from_str("#[");
    line.append("path = \"build/runtime/mod.rs\"]");
    line
}

impl Parser {
    /// The labels are exactly the values of `names`, by key, in ascending
    /// order.
    pub(crate) open spec fn label_names(&self, names: Seq<String>) -> bool {
        &&& crate::compiler::sorted_set::ascending(crate::compiler::sorted_set::keys_of(names))
        &&& forall|k: Seq<u8>| crate::compiler::sorted_set::keys_of(names).contains(k)
            <==> exists|l: usize| #[trigger] self.labels.has(l) && self.labels.value(l).key() == k
    }

    /// Writes the enumeration of the labels: each label once, in ascending
    /// order.
    fn generate_labels(&self, codegen: &mut Codegen)
        requires
            old(codegen)@.1 == 0,
        ensures
            exists|names: Seq<String>| self.label_names(names) && final(codegen)@ == labels_text(old(codegen)@, names),
            final(codegen)@.1 == 0,
    {
        codegen.line("#[derive(Debug, Copy, Clone, Eq, PartialEq, Hash)]");
        let mut names: crate::compiler::sorted_set::SortedSet<String> = crate::compiler::sorted_set::SortedSet::new();
        let n = self.labels.next_index();
        let mut i: usize = 0;
        while i < n
            invariant
                i <= n,
                n == self.labels@.len(),
                forall|k: Seq<u8>| names@.contains(k) <==> exists|l: usize| l < i && #[trigger] self.labels.has(l) && self.labels.value(l).key() == k,
            decreases n - i,
        {
            let ghost before = names@;
            if self.labels.contains(crate::compiler::instruction::LabelId(i)) {
                let label = self.labels.get(crate::compiler::instruction::LabelId(i)).clone();
                names.insert(label);
            }
            proof {
                assert forall|k: Seq<u8>| names@.contains(k) <==> exists|l: usize| l < i + 1 && #[trigger] self.labels.has(l) && self.labels.value(l).key() == k by {
                    if exists|l: usize| l < i + 1 && #[trigger] self.labels.has(l) && self.labels.value(l).key() == k {
                        let l = choose|l: usize| l < i + 1 && #[trigger] self.labels.has(l) && self.labels.value(l).key() == k;
                        if l < i {
                            assert(before.contains(k));
                        }
                    }
                    if before.contains(k) {
                        let l = choose|l: usize| l < i && #[trigger] self.labels.has(l) && self.labels.value(l).key() == k;
                        assert(l < i + 1);
                    }
                }
            }
            i += 1;
        }
        let mut enumeration = codegen.enumeration("Label", true);
        let items = names.items();
        let ghost opened = codegen@;
        let mut k: usize = 0;
        while k < items.len()
            invariant
                k <= items@.len(),
                codegen@ == variants_text(opened, items@.take(k as int)),
                codegen@.1 == 1,
            decreases items@.len() - k,
        {
            let name = pascal_case(items[k].as_str());
            enumeration.variant(codegen, name.as_str());
            proof {
                assert(items@.take(k + 1).drop_last() =~= items@.take(k as int));
                assert(items@.take(k + 1).last() == items@[k as int]);
            }
            k += 1;
        }
        assert(items@.take(k as int) =~= items@);
        enumeration.finish(codegen);
        proof {
            assert(self.label_names(items@)) by {
                assert forall|key: Seq<u8>| crate::compiler::sorted_set::keys_of(items@).contains(key)
                    <==> exists|l: usize| #[trigger] self.labels.has(l) && self.labels.value(l).key() == key by {
                    if exists|l: usize| #[trigger] self.labels.has(l) && self.labels.value(l).key() == key {
                        let l = choose|l: usize| #[trigger] self.labels.has(l) && self.labels.value(l).key() == key;
                        assert(l < n);
                    }
                }
            }
        }
    }

    /// The generated source text of the parser, as [`Parser::generate`]
    /// writes it, before its last line feeds are settled: `names` are the
    /// labels.
    pub(crate) open spec fn generated_view(&self, names: Seq<String>) -> CodegenView {
        let v0 = (Seq::<char>::empty(), 0nat, true);
        let v1 = cg_newline(cg_line(v0, "// Generated"@));
        let v2 = cg_newline(cg_line(cg_line(cg_line(v1, "#["@ + "path = \"build/runtime/mod.rs\"]"@), "mod runtime;"@), "use runtime::*;"@));
        let v3 = cg_newline(cg_line(lines_text(cg_line(v2, "/*"@), self.graph_lines()), "*/"@));
        let v4 = labels_text(v3, names);
        let v5 = cg_newline(constants_text(v4, states_of(self)));
        let v6 = self.state_functions_text(v5, states_of(self));
        let v7 = self.series_functions_text(v6, self.series@.len());
        let v8 = dispatch_text(v7, states_of(self));
        cg_line(v8, "generate!("@ + const_name(self.start.0 as nat, 0) + ", dispatch);"@)
    }

    /// The source text of the parser: the runtime module, the graph of the
    /// parser in a comment, the labels, a state constant and function for
    /// each stage of each instruction, a function for each series and
    /// class, the dispatch from state to function, and the macro that
    /// writes the rest.
    pub closed spec fn generated(&self, text: Seq<char>) -> bool {
        exists|names: Seq<String>| self.label_names(names) && text == crate::output::trim_white(self.generated_view(names).0) + seq!['\n']
    }

    /// Generates the source text of the parser.
    pub fn generate(self) -> (text: String)
        requires
            self.wf(),
        ensures
            self.generated(text@),
    {
        let mut codegen = Codegen::new();
        codegen.line("// Generated");
        codegen.newline();
        codegen.line(path_attribute().as_str());
        codegen.line("mod runtime;");
        codegen.line("use runtime::*;");
        codegen.newline();
        codegen.line("/*");
        let lines = self.visualize_lines();
        let ghost comment_start = codegen@;
        let mut k: usize = 0;
        while k < lines.len()
            invariant
                k <= lines@.len(),
                crate::compiler::graphvis::texts(lines@) == self.graph_lines(),
                codegen@ == lines_text(comment_start, self.graph_lines().take(k as int)),
                codegen@.1 == 0,
            decreases lines@.len() - k,
        {
            codegen.line(lines[k].as_str());
            proof {
                assert(self.graph_lines().take(k + 1).drop_last() =~= self.graph_lines().take(k as int));
                assert(self.graph_lines()[k as int] == lines@[k as int]@);
            }
            k += 1;
        }
        assert(self.graph_lines().take(k as int) =~= self.graph_lines());
        codegen.line("*/");
        codegen.newline();
        self.generate_labels(&mut codegen);
        self.generate_state_constants(&mut codegen);
        self.generate_state_functions(&mut codegen);
        self.generate_series_functions(&mut codegen);
        self.generate_dispatch_function(&mut codegen);
        let mut last = String::from_str("generate!(");
        last.append(state_const_name(self.start.0, 0).as_str());
        last.append(", dispatch);");
        codegen.line(last.as_str());
        let ghost view = codegen@;
        let text = codegen.finish();
        proof {
            let names = choose|names: Seq<String>| self.label_names(names) && view == self.generated_view(names);
            assert(self.label_names(names) && text@ == crate::output::trim_white(self.generated_view(names).0) + seq!['\n']);
        }
        text
    }
}

} // verus!
