use crate::compiler::character::characters_of;
use crate::compiler::instruction::{Instruction, InstructionId};
use crate::compiler::reach::{reachable_from, reached_from, reaches, lists_of};
use crate::compiler::Parser;
use vstd::prelude::*;

verus! {

impl Parser {
    /// Instruction `i` is left recursive: it can come back to itself
    /// without consuming input.
    pub(crate) open spec fn left_recursive(&self, i: usize) -> bool {
        let graph = self.left_graph(characters_of(self));
        &&& self.has(i)
        &&& reached_from(graph, graph[i as int], i)
    }

    /// Finds the errors of the grammar: the left recursive instructions, in
    /// ascending order.
    pub(crate) fn validate(&self) -> (errors: Vec<InstructionId>)
        requires
            self.body_wf(),
        ensures
            forall|a: int, b: int| 0 <= a < b < errors@.len() ==> errors@[a].0 < errors@[b].0,
            forall|i: usize| self.left_recursive(i) <==> exists|j: int| 0 <= j < errors@.len() && #[trigger] errors@[j].0 == i,
    {
        let chars = self.characterize();
        let adj = self.flow_adjacency(&chars, true);
        let ghost graph = lists_of(adj@);
        assert(graph =~= self.left_graph(characters_of(self)));
        let n = adj.len();
        let mut errors: Vec<InstructionId> = Vec::new();
        let mut i: usize = 0;
        while i < n
            invariant
                n == self.size(),
                n == adj@.len(),
                i <= n,
                self.body_wf(),
                graph == lists_of(adj@),
                graph == self.left_graph(characters_of(self)),
                crate::compiler::reach::adjacency_closed(graph),
                forall|k: int| 0 <= k < adj@.len() ==> (#[trigger] adj@[k])@ == graph[k],
                forall|j: int| 0 <= j < errors@.len() ==> (#[trigger] errors@[j]).0 < i,
                forall|a: int, b: int| 0 <= a < b < errors@.len() ==> errors@[a].0 < errors@[b].0,
                forall|v: usize| v < i ==> (self.left_recursive(v) <==> exists|j: int| 0 <= j < errors@.len() && #[trigger] errors@[j].0 == v),
            decreases n - i,
        {
            let ghost before = errors@;
            if self.instructions.contains(InstructionId(i)) {
                proof {
                    assert forall|j: int| 0 <= j < adj@[i as int]@.len() implies #[trigger] adj@[i as int]@[j] < adj@.len() by {
                        assert(graph[i as int][j] < graph.len());
                    }
                }
                let seen = reachable_from(&adj, &adj[i]);
                if seen[i] {
                    errors.push(InstructionId(i));
                }
                proof {
                    assert(self.left_recursive(i) == seen@[i as int]);
                }
            }
            proof {
                assert forall|v: usize| v < i + 1 implies (self.left_recursive(v) <==> exists|j: int| 0 <= j < errors@.len() && #[trigger] errors@[j].0 == v) by {
                    if v < i {
                        if exists|j: int| 0 <= j < before.len() && #[trigger] before[j].0 == v {
                            let j = choose|j: int| 0 <= j < before.len() && #[trigger] before[j].0 == v;
                            assert(errors@[j] == before[j]);
                        }
                        if exists|j: int| 0 <= j < errors@.len() && #[trigger] errors@[j].0 == v {
                            let j = choose|j: int| 0 <= j < errors@.len() && #[trigger] errors@[j].0 == v;
                            if j < before.len() {
                                assert(before[j] == errors@[j]);
                            }
                        }
                    } else {
                        if exists|j: int| 0 <= j < errors@.len() && #[trigger] errors@[j].0 == v {
                            let j = choose|j: int| 0 <= j < errors@.len() && #[trigger] errors@[j].0 == v;
                            if j < before.len() {
                                assert(before[j] == errors@[j]);
                            }
                        }
                        if self.left_recursive(v) {
                            assert(errors@[errors@.len() - 1].0 == v);
                        }
                    }
                }
            }
            i += 1;
        }
        proof {
            assert forall|v: usize| self.left_recursive(v) implies exists|j: int| 0 <= j < errors@.len() && #[trigger] errors@[j].0 == v by {
                assert(v < n);
            }
        }
        errors
    }
}

/// An instruction is left recursive when a part that it may run before
/// consuming input comes back to it: either branch of a choice, the first
/// part of a sequence (and the second when the first can match without
/// consuming input), and the target of every other instruction that has
/// one.
pub(crate) proof fn lemma_left_recursive_through(p: &Parser, c: usize, part: usize)
    requires
        p.has(c),
        reaches(p.left_graph(characters_of(p)), part, c),
        match p.ins(c) {
            Instruction::Choice(first, second) | Instruction::FirstChoice(first, second) => part == first.0 || part == second.0,
            Instruction::Sequence(first, second) => part == first.0
                || (part == second.0 && characters_of(p)[first.0 as int].transparent),
            Instruction::Series(_) => false,
            other => part == other.succs()[0].0,
        },
    ensures
        p.left_recursive(c),
{
    let chars = characters_of(p);
    let graph = p.left_graph(chars);
    assert(c < p.size());
    let edges = p.flow_succs(chars, c, true);
    assert(graph[c as int] == edges);
    let j: int = match p.ins(c) {
        Instruction::Choice(first, second) | Instruction::FirstChoice(first, second) => if part == first.0 { 0 } else { 1 },
        Instruction::Sequence(first, second) => if part == first.0 { 0 } else { 1 },
        _ => 0,
    };
    assert(0 <= j < edges.len() && edges[j] == part);
    assert(reaches(graph, graph[c as int][j], c));
}

} // verus!
