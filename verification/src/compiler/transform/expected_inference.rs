use crate::compiler::character::characters_of;
use crate::compiler::expected::Expected;
use crate::compiler::instruction::{ExpectedId, Instruction, InstructionId};
use crate::compiler::reach::reached_from;
use crate::compiler::Parser;
use vstd::prelude::*;

verus! {

/// Some pending entry is for instruction `j`.
pub open spec fn pending_for(pending: Seq<(usize, Expected)>, j: usize) -> bool {
    exists|k: int| 0 <= k < pending.len() && (#[trigger] pending[k]).0 == j
}

impl Parser {
    /// `e` is the expected set of instruction `target` of `p`: its labels
    /// and literals are those of the instructions that the expected-set
    /// edges reach from `target`.
    pub(crate) open spec fn is_expected_of(p: &Parser, e: Expected, target: usize) -> bool {
        let graph = p.expected_graph(characters_of(p));
        &&& forall|k: Seq<u8>| #[trigger] e@.0.contains(k) <==> exists|i: usize|
            reached_from(graph, seq![target], i) && #[trigger] p.label_at(i, k)
        &&& forall|k: Seq<u8>| #[trigger] e@.1.contains(k) <==> exists|i: usize|
            reached_from(graph, seq![target], i) && #[trigger] p.literal_at(i, k)
    }

    /// The expected sets of the error instructions, from the last
    /// instruction to the first.
    fn pending_expecteds(&self) -> (pending: Vec<(usize, Expected)>)
        requires
            self.loaded_wf(),
        ensures
            forall|a: int, b: int| 0 <= a < b < pending@.len() ==> pending@[a].0 > pending@[b].0,
            forall|k: int| 0 <= k < pending@.len() ==> {
                let (j, e) = #[trigger] pending@[k];
                &&& self.has(j)
                &&& self.ins(j) matches Instruction::Error(_, named) && Parser::is_expected_of(self, e, named.0)
            },
            forall|j: usize| #[trigger] self.has(j) && self.ins(j) is Error ==> pending_for(pending@, j),
    {
        let chars = self.characterize();
        let mut pending: Vec<(usize, Expected)> = Vec::new();
        let mut i: usize = self.instructions.next_index();
        while i > 0
            invariant
                i <= self.size(),
                self.loaded_wf(),
                chars@ == characters_of(self),
                chars@.len() == self.size(),
                forall|a: int, b: int| 0 <= a < b < pending@.len() ==> pending@[a].0 > pending@[b].0,
                forall|k: int| 0 <= k < pending@.len() ==> (#[trigger] pending@[k]).0 >= i,
                forall|k: int| 0 <= k < pending@.len() ==> {
                    let (j, e) = #[trigger] pending@[k];
                    &&& self.has(j)
                    &&& self.ins(j) matches Instruction::Error(_, named) && Parser::is_expected_of(self, e, named.0)
                },
                forall|j: usize| j >= i && #[trigger] self.has(j) && self.ins(j) is Error ==> pending_for(pending@, j),
            decreases i,
        {
            i -= 1;
            let ghost before = pending@;
            if self.instructions.contains(InstructionId(i)) {
                assert(self.has(i));
                if let Instruction::Error(_, named) = self.instruction(InstructionId(i)) {
                    let expected = self.compute_expected(InstructionId(named.0), &chars);
                    pending.push((i, expected));
                    assert(pending@[pending@.len() - 1].0 == i);
                }
            }
            assert forall|j: usize| j >= i && #[trigger] self.has(j) && self.ins(j) is Error implies pending_for(pending@, j) by {
                if j > i {
                    let k = choose|k: int| 0 <= k < before.len() && (#[trigger] before[k]).0 == j;
                    assert(pending@[k] == before[k]);
                }
            }
        }
        pending
    }

    /// Replaces the instruction that each error instruction names by that
    /// instruction's expected set.
    pub(crate) fn infer_expecteds(&mut self)
        requires
            old(self).loaded_wf(),
            old(self).expecteds@.len() == 0,
        ensures
            final(self).wf(),
            final(self).start == old(self).start,
            final(self).series == old(self).series,
            final(self).labels == old(self).labels,
            final(self).debug_symbols == old(self).debug_symbols,
            final(self).size() == old(self).size(),
            forall|i: usize| #[trigger] final(self).has(i) == old(self).has(i),
            forall|i: usize| #[trigger] old(self).has(i) ==> match old(self).ins(i) {
                Instruction::Error(target, named) => final(self).ins(i) matches Instruction::Error(t, e)
                    && t == target && Parser::is_expected_of(old(self), final(self).expecteds.value(e.0), named.0),
                other => final(self).ins(i) == other,
            },
    {
        let mut pending = self.pending_expecteds();
        let n = self.instructions.next_index();
        let ghost start = *self;
        proof {
            lemma_descending_len(pending@, start.size());
        }
        while pending.len() > 0
            invariant
                start.loaded_wf(),
                start.expecteds@.len() == 0,
                self.start == start.start,
                self.series == start.series,
                self.labels == start.labels,
                self.debug_symbols == start.debug_symbols,
                self.instructions@.len() == start.size(),
                n == start.size(),
                self.expecteds@.len() + pending@.len() <= start.size(),
                forall|j: usize| #[trigger] self.has(j) == start.has(j),
                forall|a: int, b: int| 0 <= a < b < pending@.len() ==> pending@[a].0 > pending@[b].0,
                forall|k: int| 0 <= k < pending@.len() ==> {
                    let (j, e) = #[trigger] pending@[k];
                    &&& start.has(j)
                    &&& start.ins(j) matches Instruction::Error(_, named) && Parser::is_expected_of(&start, e, named.0)
                },
                forall|j: usize| #[trigger] start.has(j) ==> match start.ins(j) {
                    Instruction::Error(target, named) => if pending_for(pending@, j) {
                        self.ins(j) == start.ins(j)
                    } else {
                        self.ins(j) matches Instruction::Error(t, e) && t == target && self.expecteds.has(e.0)
                            && Parser::is_expected_of(&start, self.expecteds.value(e.0), named.0)
                    },
                    other => self.ins(j) == other,
                },
            decreases pending@.len(),
        {
            let ghost before_pending = pending@;
            let ghost before = *self;
            let (j, expected) = pending.pop().unwrap();
            proof {
                assert(before_pending[before_pending.len() - 1] == (j, expected));
                assert(pending_for(before_pending, j));
                assert(start.has(j));
                assert forall|j2: usize| j2 != j implies pending_for(pending@, j2) == pending_for(before_pending, j2) by {
                    if pending_for(before_pending, j2) {
                        let k = choose|k: int| 0 <= k < before_pending.len() && (#[trigger] before_pending[k]).0 == j2;
                        assert(pending@[k] == before_pending[k]);
                    }
                    if pending_for(pending@, j2) {
                        let k = choose|k: int| 0 <= k < pending@.len() && (#[trigger] pending@[k]).0 == j2;
                        assert(pending@[k] == before_pending[k]);
                    }
                }
                assert(!pending_for(pending@, j)) by {
                    if pending_for(pending@, j) {
                        let k = choose|k: int| 0 <= k < pending@.len() && (#[trigger] pending@[k]).0 == j;
                        assert(pending@[k] == before_pending[k]);
                        assert(before_pending[k].0 > before_pending[before_pending.len() - 1].0);
                    }
                }
            }
            let target = match self.instruction(InstructionId(j)) {
                Instruction::Error(target, _) => target,
                _ => InstructionId(0),
            };
            let e: ExpectedId = self.expecteds.insert(expected);
            self.instructions.set(InstructionId(j), Instruction::Error(target, e));
            proof {
                assert forall|j2: usize| #[trigger] self.has(j2) == start.has(j2) by {
                    assert(before.has(j2) == start.has(j2));
                }
                assert forall|k: int| 0 <= k < pending@.len() implies {
                    let (j3, e3) = #[trigger] pending@[k];
                    &&& start.has(j3)
                    &&& start.ins(j3) matches Instruction::Error(_, named) && Parser::is_expected_of(&start, e3, named.0)
                } by {
                    assert(pending@[k] == before_pending[k]);
                }
                assert forall|j2: usize| #[trigger] start.has(j2) implies match start.ins(j2) {
                    Instruction::Error(target2, named) => if pending_for(pending@, j2) {
                        self.ins(j2) == start.ins(j2)
                    } else {
                        self.ins(j2) matches Instruction::Error(t, e2) && t == target2 && self.expecteds.has(e2.0)
                            && Parser::is_expected_of(&start, self.expecteds.value(e2.0), named.0)
                    },
                    other => self.ins(j2) == other,
                } by {
                    assert(before.has(j2));
                    if j2 != j {
                        assert(self.ins(j2) == before.ins(j2));
                        if let Instruction::Error(_, _) = start.ins(j2) {
                            if !pending_for(pending@, j2) {
                                let e2 = before.ins(j2)->Error_1;
                                assert(self.expecteds@[e2.0 as int] == before.expecteds@[e2.0 as int]);
                            }
                        }
                    } else {
                        assert(self.expecteds.value(e.0) == expected);
                    }
                }
            }
        }
        proof {
            assert forall|j: usize| #[trigger] self.has(j) implies match self.ins(j) {
                Instruction::Error(_, e) => self.expecteds.has(e.0),
                _ => true,
            } by {
                assert(start.has(j));
            }
            assert forall|j: usize| self.has(j) implies #[trigger] self.closed_at(j) by {
                assert(start.has(j));
                assert(start.closed_at(j));
                assert(self.ins(j).succs() == start.ins(j).succs());
            }
            assert forall|j: usize| #[trigger] self.has(j) implies match self.ins(j) {
                Instruction::Series(s) => self.series.has(s.0),
                _ => true,
            } by {
                assert(start.has(j));
            }
            assert forall|j: usize| #[trigger] self.has(j) implies match self.ins(j) {
                Instruction::Label(_, l) => self.labels.has(l.0),
                _ => true,
            } by {
                assert(start.has(j));
            }
            assert forall|j: usize| #[trigger] self.has(j) implies self.debug_symbols.has(j) by {
                assert(start.has(j));
            }
            assert(self.has(self.start.0));
        }
    }
}

/// A strictly descending sequence of indices below `n` is no longer than `n`.
proof fn lemma_descending_len(pending: Seq<(usize, Expected)>, n: nat)
    requires
        forall|a: int, b: int| 0 <= a < b < pending.len() ==> pending[a].0 > pending[b].0,
        forall|k: int| 0 <= k < pending.len() ==> (#[trigger] pending[k]).0 < n,
    ensures
        pending.len() <= n,
    decreases pending.len(),
{
    if pending.len() > 0 {
        let rest = pending.drop_first();
        assert forall|k: int| 0 <= k < rest.len() implies (#[trigger] rest[k]).0 < pending[0].0 by {
            assert(rest[k] == pending[k + 1]);
        }
        assert forall|a: int, b: int| 0 <= a < b < rest.len() implies rest[a].0 > rest[b].0 by {
            assert(rest[a] == pending[a + 1]);
            assert(rest[b] == pending[b + 1]);
        }
        lemma_descending_len(rest, pending[0].0 as nat);
    }
}

} // verus!
