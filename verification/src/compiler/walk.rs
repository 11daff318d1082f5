use crate::compiler::instruction::InstructionId;
use crate::compiler::reach::{edge, lemma_closed_set_holds_reached, lemma_reaches_self, lemma_reaches_step, lists_of, reaches};
use crate::compiler::transform::trim::indices;
use crate::compiler::Parser;
use vstd::prelude::*;
use vstd::set_lib::{lemma_int_range, lemma_len_subset, set_int_range};

verus! {

impl Parser {
    /// The instructions that can be reached from the start, in the order of
    /// a depth first search that visits the successors of an instruction in
    /// order, each before it is left.
    pub(crate) fn walk(&self) -> (order: Vec<InstructionId>)
        requires
            self.graph_wf(),
        ensures
            order@.len() > 0 && order@[0] == self.start,
            forall|a: int, b: int| 0 <= a < b < order@.len() ==> order@[a] != order@[b],
            forall|i: usize| self.reachable(i) <==> exists|k: int| 0 <= k < order@.len() && #[trigger] order@[k].0 == i,
            forall|k: int| 0 <= k < order@.len() ==> self.reachable(#[trigger] order@[k].0),
    {
        let adj = self.successor_adjacency();
        let ghost g = lists_of(adj@);
        let n = adj.len();
        let mut visited: Vec<bool> = Vec::new();
        while visited.len() < n
            invariant
                visited@.len() <= n,
                forall|v: int| 0 <= v < visited@.len() ==> !visited@[v],
            decreases n - visited@.len(),
        {
            visited.push(false);
        }
        let mut order: Vec<InstructionId> = Vec::new();
        let mut queue: Vec<usize> = vec![self.start.0];
        let ghost mut marked: Set<int> = Set::empty();
        proof {
            assert(adj@.len() == g.len());
            assert(self.has(self.start.0));
            lemma_int_range(0, n as int);
            lemma_reaches_self(g, self.start.0);
            assert(queue@[0] == self.start.0);
        }
        while queue.len() > 0
            invariant
                n == adj@.len(),
                n == self.size(),
                g == lists_of(adj@),
                g == self.succ_graph(),
                crate::compiler::reach::adjacency_closed(g),
                self.graph_wf(),
                visited@.len() == n,
                forall|v: int| 0 <= v < n ==> (visited@[v] <==> marked.contains(v)),
                marked.subset_of(set_int_range(0, n as int)),
                marked.finite(),
                marked.len() == order@.len(),
                set_int_range(0, n as int).finite(),
                set_int_range(0, n as int).len() == n,
                forall|k: int| 0 <= k < queue@.len() ==> #[trigger] queue@[k] < n && reaches(g, self.start.0, queue@[k]),
                forall|k: int| 0 <= k < order@.len() ==> (#[trigger] order@[k]).0 < n && visited@[order@[k].0 as int]
                    && reaches(g, self.start.0, order@[k].0),
                forall|v: usize| v < n && visited@[v as int] ==> exists|k: int| 0 <= k < order@.len() && #[trigger] order@[k].0 == v,
                forall|a: int, b: int| 0 <= a < b < order@.len() ==> order@[a] != order@[b],
                order@.len() > 0 ==> order@[0] == self.start,
                order@.len() == 0 ==> queue@ == seq![self.start.0],
                visited@[self.start.0 as int] || queue@.contains(self.start.0),
                forall|u: usize, w: usize| u < n && visited@[u as int] && #[trigger] edge(g, u, w) ==> visited@[w as int] || queue@.contains(w),
            decreases n - order@.len(), queue@.len(),
        {
            proof {
                lemma_len_subset(marked, set_int_range(0, n as int));
            }
            let ghost before_queue = queue@;
            let ghost before_visited = visited@;
            let ghost before_order = order@;
            let u = queue.pop().unwrap();
            proof {
                assert(before_queue == queue@.push(u));
                assert forall|v: usize| before_queue.contains(v) implies queue@.contains(v) || v == u by {
                    let k = choose|k: int| 0 <= k < before_queue.len() && before_queue[k] == v;
                    if k < queue@.len() {
                        assert(queue@[k] == v);
                    }
                }
            }
            if !visited[u] {
                proof {
                    marked = marked.insert(u as int);
                    lemma_len_subset(marked, set_int_range(0, n as int));
                }
                visited.set(u, true);
                order.push(InstructionId(u));
                let succs = &adj[u];
                let ghost mid_queue = queue@;
                let mut k: usize = succs.len();
                while k > 0
                    invariant
                        k <= succs@.len(),
                        succs@ == g[u as int],
                        n == adj@.len(),
                        g == lists_of(adj@),
                        crate::compiler::reach::adjacency_closed(g),
                        u < n,
                        reaches(g, self.start.0, u),
                        forall|k2: int| 0 <= k2 < queue@.len() ==> #[trigger] queue@[k2] < n && reaches(g, self.start.0, queue@[k2]),
                        forall|k2: int| k <= k2 < succs@.len() ==> queue@.contains(#[trigger] succs@[k2]),
                        forall|v: usize| mid_queue.contains(v) ==> #[trigger] queue@.contains(v),
                    decreases k,
                {
                    k -= 1;
                    let ghost bq = queue@;
                    let w = succs[k];
                    proof {
                        assert(edge(g, u, w));
                        lemma_reaches_step(g, self.start.0, u, w);
                    }
                    queue.push(w);
                    proof {
                        assert(queue@[queue@.len() - 1] == w);
                        assert forall|v: usize| bq.contains(v) implies queue@.contains(v) by {
                            let j = choose|j: int| 0 <= j < bq.len() && bq[j] == v;
                            assert(queue@[j] == v);
                        }
                        assert forall|v: usize| mid_queue.contains(v) implies #[trigger] queue@.contains(v) by {
                            assert(bq.contains(v));
                        }
                    }
                }
                proof {
                    assert forall|v: usize| v < n && visited@[v as int] implies exists|k2: int| 0 <= k2 < order@.len() && #[trigger] order@[k2].0 == v by {
                        if v == u {
                            assert(order@[order@.len() - 1].0 == u);
                        } else {
                            assert(before_visited[v as int]);
                            let k2 = choose|k2: int| 0 <= k2 < before_order.len() && #[trigger] before_order[k2].0 == v;
                            assert(order@[k2] == before_order[k2]);
                        }
                    }
                    assert forall|a: int, b: int| 0 <= a < b < order@.len() implies order@[a] != order@[b] by {
                        if b == order@.len() - 1 {
                            assert(before_visited[order@[a].0 as int]);
                        }
                    }
                    assert forall|u2: usize, w: usize| u2 < n && visited@[u2 as int] && #[trigger] edge(g, u2, w) implies visited@[w as int] || queue@.contains(w) by {
                        if u2 == u {
                            let j = choose|j: int| 0 <= j < g[u as int].len() && g[u as int][j] == w;
                            assert(queue@.contains(succs@[j]));
                        } else {
                            assert(before_visited[u2 as int]);
                            if !before_visited[w as int] {
                                assert(before_queue.contains(w));
                                if w != u {
                                    assert(mid_queue.contains(w));
                                }
                            }
                        }
                    }
                    if before_order.len() == 0 {
                        assert(u == self.start.0);
                    }
                }
            } else {
                proof {
                    assert forall|u2: usize, w: usize| u2 < n && visited@[u2 as int] && #[trigger] edge(g, u2, w) implies visited@[w as int] || queue@.contains(w) by {
                        if !visited@[w as int] {
                            assert(before_queue.contains(w));
                        }
                    }
                    assert(before_order.len() > 0) by {
                        if before_order.len() == 0 {
                            assert(before_queue == seq![self.start.0]);
                            assert(!before_visited[self.start.0 as int]) by {
                                if before_visited[self.start.0 as int] {
                                    assert(marked.contains(self.start.0 as int));
                                }
                            }
                        }
                    }
                }
            }
        }
        proof {
            assert(visited@[self.start.0 as int]);
            assert forall|i: usize| self.reachable(i) implies exists|k: int| 0 <= k < order@.len() && #[trigger] order@[k].0 == i by {
                assert forall|u2: usize, w: usize| u2 < visited@.len() && visited@[u2 as int] && #[trigger] edge(g, u2, w)
                    implies w < visited@.len() && visited@[w as int] by {
                    assert(!queue@.contains(w));
                    let kk = choose|kk: int| 0 <= kk < g[u2 as int].len() && g[u2 as int][kk] == w;
                }
                lemma_closed_set_holds_reached(g, visited@, self.start.0, i);
            }
            assert forall|i: usize| (exists|k: int| 0 <= k < order@.len() && #[trigger] order@[k].0 == i) implies self.reachable(i) by {
                let k = choose|k: int| 0 <= k < order@.len() && #[trigger] order@[k].0 == i;
                assert(reaches(g, self.start.0, i));
                crate::compiler::transform::trim::lemma_reached_has(self, i);
            }
            assert forall|k: int| 0 <= k < order@.len() implies self.reachable(#[trigger] order@[k].0) by {
                crate::compiler::transform::trim::lemma_reached_has(self, order@[k].0);
            }
        }
        order
    }
}

} // verus!
