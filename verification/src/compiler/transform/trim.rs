use crate::compiler::instruction::{ExpectedId, Instruction, InstructionId, LabelId, SeriesId};
use crate::compiler::reach::{reachable_from, reached_from, reaches, lists_of, adjacency_closed, lemma_reaches_step, lemma_reaches_self, lemma_same_reach, edge, is_path, path_step};
use crate::compiler::Parser;
use crate::store::{Store, StoreKey};
use vstd::prelude::*;

verus! {

/// The indices of `ids`.
pub open spec fn indices(ids: Seq<InstructionId>) -> Seq<usize> {
    ids.map_values(|id: InstructionId| id.0)
}

/// Which series, label or expected set an instruction refers to, by the
/// kind of resource: 0 for series, 1 for labels, 2 for expected sets.
pub open spec fn refers(instruction: Instruction, kind: int, r: usize) -> bool {
    match instruction {
        Instruction::Series(s) => kind == 0 && s.0 == r,
        Instruction::Label(_, l) => kind == 1 && l.0 == r,
        Instruction::Error(_, e) => kind == 2 && e.0 == r,
        _ => false,
    }
}

impl Parser {
    /// The graph of the instructions: each refers to its successors.
    pub(crate) open spec fn succ_graph(&self) -> Seq<Seq<usize>> {
        Seq::new(self.size(), |i: int| if self.has(i as usize) { indices(self.ins(i as usize).succs()) } else { Seq::empty() })
    }

    /// Instruction `i` can be reached from the start.
    pub(crate) open spec fn reachable(&self, i: usize) -> bool {
        self.has(i) && reaches(self.succ_graph(), self.start.0, i)
    }

    /// Some instruction refers to resource `r` of kind `kind`.
    pub(crate) open spec fn referenced(&self, kind: int, r: usize) -> bool {
        exists|i: usize| #[trigger] self.has(i) && refers(self.ins(i), kind, r)
    }

    /// The adjacency lists of the instruction graph.
    pub(crate) fn successor_adjacency(&self) -> (adj: Vec<Vec<usize>>)
        requires
            self.graph_wf(),
        ensures
            lists_of(adj@) == self.succ_graph(),
            adjacency_closed(lists_of(adj@)),
    {
        let n = self.instructions.next_index();
        let mut adj: Vec<Vec<usize>> = Vec::new();
        let mut i: usize = 0;
        while i < n
            invariant
                n == self.size(),
                i <= n,
                self.graph_wf(),
                adj@.len() == i,
                forall|j: int| 0 <= j < i ==> (#[trigger] adj@[j])@ == self.succ_graph()[j],
            decreases n - i,
        {
            let mut list: Vec<usize> = Vec::new();
            if self.instructions.contains(InstructionId(i)) {
                let succs = self.instruction(InstructionId(i)).successors();
                let mut k: usize = 0;
                while k < succs.len()
                    invariant
                        k <= succs@.len(),
                        succs@ == self.ins(i).succs(),
                        list@ == indices(succs@.take(k as int)),
                    decreases succs@.len() - k,
                {
                    list.push(succs[k].0);
                    assert(indices(succs@.take(k + 1)) =~= indices(succs@.take(k as int)).push(succs@[k as int].0));
                    k += 1;
                }
                assert(succs@.take(k as int) == succs@);
            } else {
                assert(list@ =~= Seq::<usize>::empty());
            }
            adj.push(list);
            i += 1;
        }
        assert(lists_of(adj@) =~= self.succ_graph());
        proof {
            assert forall|a: int, k: int| 0 <= a < lists_of(adj@).len() && 0 <= k < lists_of(adj@)[a].len()
                implies #[trigger] lists_of(adj@)[a][k] < lists_of(adj@).len() by {
                assert(self.has(a as usize));
                assert(self.closed_at(a as usize));
                assert(self.has(self.ins(a as usize).succs()[k].0));
            }
        }
        adj
    }

    /// The instructions that can be reached from the start, as a flag per
    /// instruction.
    pub(crate) fn reachable_flags(&self) -> (flags: Vec<bool>)
        requires
            self.graph_wf(),
        ensures
            flags@.len() == self.size(),
            forall|i: usize| i < self.size() ==> (flags@[i as int] <==> reaches(self.succ_graph(), self.start.0, i)),
    {
        let adj = self.successor_adjacency();
        assert(adj@.len() == lists_of(adj@).len());
        let starts = vec![self.start.0];
        let flags = reachable_from(&adj, &starts);
        proof {
            assert forall|i: usize| i < self.size() implies (flags@[i as int] <==> reaches(self.succ_graph(), self.start.0, i)) by {
                if reached_from(self.succ_graph(), starts@, i) {
                    let j = choose|j: int| 0 <= j < starts@.len() && reaches(self.succ_graph(), #[trigger] starts@[j], i);
                    assert(starts@[j] == self.start.0);
                }
                if reaches(self.succ_graph(), self.start.0, i) {
                    assert(starts@[0] == self.start.0);
                }
            }
        }
        flags
    }

    /// Removes the instructions, and their debug symbols, that cannot be
    /// reached from the start.
    fn trim_instructions(&mut self)
        requires
            old(self).wf(),
        ensures
            final(self).body_wf(),
            final(self).start == old(self).start,
            final(self).size() == old(self).size(),
            final(self).series == old(self).series,
            final(self).labels == old(self).labels,
            final(self).expecteds == old(self).expecteds,
            forall|i: usize| #[trigger] final(self).has(i) == old(self).reachable(i),
            forall|i: usize| #[trigger] final(self).has(i) ==> final(self).ins(i) == old(self).ins(i)
                && final(self).debug_symbols.value(i) == old(self).debug_symbols.value(i),
            forall|i: usize| #[trigger] final(self).debug_symbols.has(i) ==> final(self).has(i),
    {
        let flags = self.reachable_flags();
        let n = self.instructions.next_index();
        let ghost start = *self;
        let mut i: usize = 0;
        while i < n
            invariant
                n == start.size(),
                i <= n,
                flags@.len() == n,
                forall|j: usize| j < n ==> (flags@[j as int] <==> reaches(start.succ_graph(), start.start.0, j)),
                self.instructions@.len() == n,
                self.start == start.start,
                self.series == start.series,
                self.labels == start.labels,
                self.expecteds == start.expecteds,
                self.debug_symbols == start.debug_symbols,
                forall|j: usize| j < i ==> (#[trigger] self.has(j) == start.reachable(j)),
                forall|j: usize| i <= j ==> (#[trigger] self.has(j) == start.has(j)),
                forall|j: usize| #[trigger] self.has(j) ==> self.ins(j) == start.ins(j),
            decreases n - i,
        {
            let ghost before = *self;
            if !flags[i] {
                self.instructions.remove(InstructionId(i));
            }
            proof {
                assert forall|j: usize| j < i + 1 implies (#[trigger] self.has(j) == start.reachable(j)) by {
                    if j < i {
                        assert(before.has(j) == start.reachable(j));
                    } else {
                        assert(before.has(j) == start.has(j));
                    }
                }
                assert forall|j: usize| i + 1 <= j implies (#[trigger] self.has(j) == start.has(j)) by {
                    assert(before.has(j) == start.has(j));
                }
                assert forall|j: usize| #[trigger] self.has(j) implies self.ins(j) == start.ins(j) by {
                    assert(before.has(j));
                }
            }
            i += 1;
        }
        let m = self.debug_symbols.next_index();
        let mut i: usize = 0;
        while i < m
            invariant
                n == start.size(),
                i <= m,
                m == self.debug_symbols@.len(),
                flags@.len() == n,
                forall|j: usize| j < n ==> (flags@[j as int] <==> reaches(start.succ_graph(), start.start.0, j)),
                self.instructions@.len() == n,
                self.start == start.start,
                self.series == start.series,
                self.labels == start.labels,
                self.expecteds == start.expecteds,
                forall|j: usize| #[trigger] self.has(j) == start.reachable(j),
                forall|j: usize| #[trigger] self.has(j) ==> self.ins(j) == start.ins(j),
                forall|j: usize| j < i && #[trigger] self.debug_symbols.has(j) ==> self.has(j),
                forall|j: usize| #[trigger] self.debug_symbols.has(j) ==> start.debug_symbols.has(j)
                    && self.debug_symbols.value(j) == start.debug_symbols.value(j),
                forall|j: usize| #[trigger] self.has(j) ==> self.debug_symbols.has(j),
            decreases m - i,
        {
            let ghost before = *self;
            if !(i < n && flags[i] && self.instructions.contains(InstructionId(i))) {
                self.debug_symbols.remove(InstructionId(i));
            }
            proof {
                assert forall|j: usize| #[trigger] self.has(j) == start.reachable(j) by {
                    assert(before.has(j) == start.reachable(j));
                }
                assert forall|j: usize| #[trigger] self.has(j) implies self.ins(j) == start.ins(j) by {
                    assert(before.has(j));
                }
                assert forall|j: usize| j < i + 1 && #[trigger] self.debug_symbols.has(j) implies self.has(j) by {
                    assert(before.debug_symbols.has(j));
                    if j < i {
                    }
                }
                assert forall|j: usize| #[trigger] self.debug_symbols.has(j) implies start.debug_symbols.has(j)
                    && self.debug_symbols.value(j) == start.debug_symbols.value(j) by {
                    assert(before.debug_symbols.has(j));
                }
                assert forall|j: usize| #[trigger] self.has(j) implies self.debug_symbols.has(j) by {
                    assert(before.has(j));
                    assert(before.debug_symbols.has(j));
                }
            }
            i += 1;
        }
        proof {
            assert(start.reachable(start.start.0)) by {
                crate::compiler::reach::lemma_reaches_self(start.succ_graph(), start.start.0);
            }
            assert forall|j: usize| self.has(j) implies #[trigger] self.closed_at(j) by {
                assert(start.closed_at(j));
                let succs = start.ins(j).succs();
                assert forall|k: int| 0 <= k < succs.len() implies self.has(#[trigger] succs[k].0) by {
                    assert(start.has(succs[k].0));
                    assert(start.succ_graph()[j as int] == indices(succs));
                    assert(indices(succs)[k] == succs[k].0);
                    assert(edge(start.succ_graph(), j, succs[k].0));
                    lemma_reaches_step(start.succ_graph(), start.start.0, j, succs[k].0);
                }
            }
        }
    }

    /// Removes every instruction that cannot be reached from the start, and
    /// every series, label and expected set that no instruction refers to.
    pub(crate) fn trim(&mut self)
        requires
            old(self).wf(),
        ensures
            final(self).wf(),
            final(self).start == old(self).start,
            final(self).size() == old(self).size(),
            forall|i: usize| #[trigger] final(self).has(i) == old(self).reachable(i),
            forall|i: usize| #[trigger] final(self).has(i) ==> final(self).ins(i) == old(self).ins(i)
                && final(self).debug_symbols.value(i) == old(self).debug_symbols.value(i),
            forall|i: usize| #[trigger] final(self).debug_symbols.has(i) ==> final(self).has(i),
            forall|s: usize| #[trigger] final(self).series.has(s) == (old(self).series.has(s) && final(self).referenced(0, s)),
            forall|s: usize| #[trigger] final(self).series.has(s) ==> final(self).series.value(s) == old(self).series.value(s),
            forall|l: usize| #[trigger] final(self).labels.has(l) == (old(self).labels.has(l) && final(self).referenced(1, l)),
            forall|l: usize| #[trigger] final(self).labels.has(l) ==> final(self).labels.value(l) == old(self).labels.value(l),
            forall|e: usize| #[trigger] final(self).expecteds.has(e) == (old(self).expecteds.has(e) && final(self).referenced(2, e)),
            forall|e: usize| #[trigger] final(self).expecteds.has(e) ==> final(self).expecteds.value(e) == old(self).expecteds.value(e),
            forall|i: usize| #[trigger] final(self).reachable(i) == final(self).has(i),
    {
        let ghost on_entry = *self;
        self.trim_instructions();
        let ghost mid = *self;
        let used0 = used_flags(&self.instructions, 0, self.series.next_index());
        trim_store(&mut self.series, &used0);
        let used1 = used_flags(&self.instructions, 1, self.labels.next_index());
        trim_store(&mut self.labels, &used1);
        let used2 = used_flags(&self.instructions, 2, self.expecteds.next_index());
        trim_store(&mut self.expecteds, &used2);
        proof {
            assert forall|i: usize| #[trigger] self.has(i) == on_entry.reachable(i) by {
                assert(mid.has(i) == on_entry.reachable(i));
            }
            assert forall|r: usize| #[trigger] self.series.has(r) == (on_entry.series.has(r) && self.referenced(0, r)) by {
                if self.referenced(0, r) {
                    let i = choose|i: usize| #[trigger] self.has(i) && refers(self.ins(i), 0, r);
                    assert(self.instructions.has(i));
                }
                if r < used0@.len() && used0@[r as int] {
                    let i = choose|i: usize| #[trigger] self.instructions.has(i) && refers(self.instructions.value(i), 0, r);
                    assert(self.has(i));
                }
            }
            assert forall|r: usize| #[trigger] self.labels.has(r) == (on_entry.labels.has(r) && self.referenced(1, r)) by {
                if self.referenced(1, r) {
                    let i = choose|i: usize| #[trigger] self.has(i) && refers(self.ins(i), 1, r);
                    assert(self.instructions.has(i));
                }
                if r < used1@.len() && used1@[r as int] {
                    let i = choose|i: usize| #[trigger] self.instructions.has(i) && refers(self.instructions.value(i), 1, r);
                    assert(self.has(i));
                }
            }
            assert forall|r: usize| #[trigger] self.expecteds.has(r) == (on_entry.expecteds.has(r) && self.referenced(2, r)) by {
                if self.referenced(2, r) {
                    let i = choose|i: usize| #[trigger] self.has(i) && refers(self.ins(i), 2, r);
                    assert(self.instructions.has(i));
                }
                if r < used2@.len() && used2@[r as int] {
                    let i = choose|i: usize| #[trigger] self.instructions.has(i) && refers(self.instructions.value(i), 2, r);
                    assert(self.has(i));
                }
            }
            assert(self.has(self.start.0));
            assert forall|j: usize| self.has(j) implies #[trigger] self.closed_at(j) by {
                assert(mid.closed_at(j));
            }
            assert forall|j: usize| #[trigger] self.has(j) implies match self.ins(j) {
                Instruction::Series(s) => self.series.has(s.0),
                _ => true,
            } by {
                if let Instruction::Series(s) = self.ins(j) {
                    assert(mid.has(j));
                    assert(on_entry.has(j));
                    assert(on_entry.series.has(s.0));
                    assert(mid.series.has(s.0));
                    assert(refers(self.instructions.value(j), 0, s.0));
                    assert(self.instructions.has(j));
                }
            }
            assert forall|j: usize| #[trigger] self.has(j) implies match self.ins(j) {
                Instruction::Label(_, l) => self.labels.has(l.0),
                _ => true,
            } by {
                if let Instruction::Label(_, l) = self.ins(j) {
                    assert(mid.has(j));
                    assert(on_entry.has(j));
                    assert(on_entry.labels.has(l.0));
                    assert(refers(self.instructions.value(j), 1, l.0));
                    assert(self.instructions.has(j));
                }
            }
            assert forall|j: usize| #[trigger] self.has(j) implies match self.ins(j) {
                Instruction::Error(_, e) => self.expecteds.has(e.0),
                _ => true,
            } by {
                if let Instruction::Error(_, e) = self.ins(j) {
                    assert(mid.has(j));
                    assert(on_entry.has(j));
                    assert(on_entry.expecteds.has(e.0));
                    assert(refers(self.instructions.value(j), 2, e.0));
                    assert(self.instructions.has(j));
                }
            }
            assert forall|j: usize| #[trigger] self.has(j) implies self.debug_symbols.has(j) by {
                assert(mid.has(j));
                assert(mid.debug_symbols.has(j));
            }
            lemma_trimmed_all_reachable(&on_entry, self);
        }
    }
}

/// Every instruction that the start reaches exists.
pub(crate) proof fn lemma_reached_has(p: &Parser, i: usize)
    requires
        p.graph_wf(),
        reaches(p.succ_graph(), p.start.0, i),
    ensures
        p.has(i),
{
    let g = p.succ_graph();
    let path = choose|path: Seq<usize>| #[trigger] is_path(g, path) && path[0] == p.start.0 && path.last() == i;
    if path.len() > 1 {
        let k = path.len() - 2;
        assert(path_step(g, path, k));
        let u = path[k];
        assert(p.has(u));
        let j = choose|j: int| 0 <= j < g[u as int].len() && g[u as int][j] == i;
        assert(p.closed_at(u));
        assert(indices(p.ins(u).succs())[j] == p.ins(u).succs()[j].0);
    }
}

/// For each resource index below `len`, whether an instruction refers to
/// it.
fn used_flags(instructions: &Store<InstructionId, Instruction>, kind: u8, len: usize) -> (used: Vec<bool>)
    ensures
        used@.len() == len,
        forall|r: usize| r < len ==> (#[trigger] used@[r as int] <==> exists|i: usize|
            #[trigger] instructions.has(i) && refers(instructions.value(i), kind as int, r)),
{
    let mut used: Vec<bool> = Vec::new();
    while used.len() < len
        invariant
            used@.len() <= len,
            forall|r: int| 0 <= r < used@.len() ==> !used@[r],
        decreases len - used@.len(),
    {
        used.push(false);
    }
    let n = instructions.next_index();
    let mut i: usize = 0;
    while i < n
        invariant
            n == instructions@.len(),
            i <= n,
            used@.len() == len,
            forall|r: usize| r < len ==> (#[trigger] used@[r as int] <==> exists|j: usize|
                j < i && #[trigger] instructions.has(j) && refers(instructions.value(j), kind as int, r)),
        decreases n - i,
    {
        let ghost before = used@;
        if instructions.contains(InstructionId(i)) {
            let r: usize = match *instructions.get(InstructionId(i)) {
                Instruction::Series(s) => if kind == 0 { s.0 } else { len },
                Instruction::Label(_, l) => if kind == 1 { l.0 } else { len },
                Instruction::Error(_, e) => if kind == 2 { e.0 } else { len },
                _ => len,
            };
            if r < len {
                used.set(r, true);
            }
        }
        proof {
            assert forall|r: usize| r < len implies (#[trigger] used@[r as int] <==> exists|j: usize|
                j < i + 1 && #[trigger] instructions.has(j) && refers(instructions.value(j), kind as int, r)) by {
                if before[r as int] {
                    let j = choose|j: usize| j < i && #[trigger] instructions.has(j) && refers(instructions.value(j), kind as int, r);
                }
                if exists|j: usize| j < i + 1 && #[trigger] instructions.has(j) && refers(instructions.value(j), kind as int, r) {
                    let j = choose|j: usize| j < i + 1 && #[trigger] instructions.has(j) && refers(instructions.value(j), kind as int, r);
                    if j < i {
                        assert(before[r as int]);
                    }
                }
            }
        }
        i += 1;
    }
    used
}

/// Removes the values of `store` whose flag is off.
fn trim_store<K: StoreKey, V>(store: &mut Store<K, V>, used: &Vec<bool>)
    requires
        used@.len() == old(store)@.len(),
    ensures
        final(store)@.len() == old(store)@.len(),
        forall|r: usize| #[trigger] final(store).has(r) == (old(store).has(r) && used@[r as int]),
        forall|r: usize| #[trigger] final(store).has(r) ==> final(store).value(r) == old(store).value(r),
{
    let n = store.next_index();
    let mut i: usize = 0;
    while i < n
        invariant
            n == old(store)@.len(),
            i <= n,
            used@.len() == n,
            store@.len() == n,
            forall|r: usize| r < i ==> (#[trigger] store.has(r) == (old(store).has(r) && used@[r as int])),
            forall|r: usize| i <= r < n ==> #[trigger] store@[r as int] == old(store)@[r as int],
            forall|r: usize| #[trigger] store.has(r) ==> store.value(r) == old(store).value(r),
        decreases n - i,
    {
        let ghost before = store@;
        let ghost bstore = *store;
        if !used[i] {
            store.remove(K::from_usize(i));
        }
        proof {
            assert(before[i as int] == old(store)@[i as int]);
            assert forall|r: usize| r < i + 1 implies (#[trigger] store.has(r) == (old(store).has(r) && used@[r as int])) by {
                if r < i {
                    assert(bstore.has(r) == (old(store).has(r) && used@[r as int]));
                    assert(store@[r as int] == before[r as int]);
                }
            }
            assert forall|r: usize| i + 1 <= r < n implies #[trigger] store@[r as int] == old(store)@[r as int] by {
                assert(before[r as int] == old(store)@[r as int]);
            }
            assert forall|r: usize| #[trigger] store.has(r) implies store.value(r) == old(store).value(r) by {
                assert(bstore.has(r));
            }
        }
        i += 1;
    }
}

/// What is left of a whole parser once exactly its reachable instructions
/// are kept is all reachable.
pub(crate) proof fn lemma_trimmed_all_reachable(a: &Parser, b: &Parser)
    requires
        a.wf(),
        b.wf(),
        b.start == a.start,
        forall|i: usize| #[trigger] b.has(i) == a.reachable(i),
        forall|i: usize| #[trigger] b.has(i) ==> b.ins(i) == a.ins(i),
    ensures
        forall|i: usize| #[trigger] b.reachable(i) == b.has(i),
{
    let keep = Set::new(|x: usize| b.has(x));
    let ga = a.succ_graph();
    let gb = b.succ_graph();
    assert forall|x: usize| #[trigger] keep.contains(x) implies x < ga.len() && x < gb.len() && ga[x as int] == gb[x as int] by {
        assert(a.reachable(x));
        assert(a.has(x));
        assert(b.has(x));
    }
    assert forall|x: usize, k: int| keep.contains(x) && 0 <= k < ga[x as int].len() implies keep.contains(#[trigger] ga[x as int][k]) by {
        assert(a.reachable(x));
        assert(a.closed_at(x));
        assert(ga[x as int] == indices(a.ins(x).succs()));
        let w = a.ins(x).succs()[k].0;
        assert(a.has(w));
        assert(ga[x as int][k] == w);
        assert(edge(ga, x, w));
        lemma_reaches_step(ga, a.start.0, x, w);
        assert(a.reachable(w));
    }
    assert(a.has(a.start.0));
    lemma_reaches_self(ga, a.start.0);
    assert(a.reachable(a.start.0));
    assert(keep.contains(a.start.0));
    assert forall|i: usize| #[trigger] b.reachable(i) == b.has(i) by {
        lemma_same_reach(ga, gb, keep, a.start.0, i);
    }
}

} // verus!
