use crate::compiler::character::predecessors_of;
use crate::compiler::instruction::{Instruction, InstructionId};
use crate::compiler::{DebugSymbol, Parser};
use crate::compiler::sorted_set::lemma_ascending_unique;
use crate::ordered_set::OrderedSet;
use vstd::prelude::*;
use vstd::set_lib::lemma_len_subset;

verus! {

/// The number of cache instructions of `p` below instruction `i`.
pub(crate) open spec fn caches_below(p: &Parser, i: int) -> nat
    decreases i,
{
    if i <= 0 {
        0
    } else {
        caches_below(p, i - 1) + if p.has((i - 1) as usize) && p.ins((i - 1) as usize) is Cache { 1nat } else { 0nat }
    }
}

/// Instruction `j` of `p` is that of `o`, numbered if it is a cache.
pub(crate) open spec fn numbered(o: &Parser, p: &Parser, j: usize) -> bool {
    match o.ins(j) {
        Instruction::Cache(target, _) => p.ins(j) == Instruction::Cache(target, Some(caches_below(o, j as int) as usize)),
        other => p.ins(j) == other,
    }
}

/// Some debug symbol of `p` names `key`.
pub(crate) open spec fn known_name(p: &Parser, key: Seq<u8>) -> bool {
    exists|j: usize| #[trigger] p.debug_symbols.has(j) && p.debug_symbols.value(j).names@.contains(key)
}

/// Every name of instruction `from` of `p` is a name of instruction `to`.
pub(crate) open spec fn names_within(p: &Parser, from: usize, to: usize) -> bool {
    forall|key: Seq<u8>| #[trigger] p.debug_symbols.value(from).names@.contains(key)
        ==> p.debug_symbols.value(to).names@.contains(key)
}

/// Each instruction of `p` that refers to instruction `c` has passed its
/// names on to `c`.
pub(crate) open spec fn names_passed_to(p: &Parser, c: usize) -> bool {
    forall|q: usize, k: int| p.has(q) && 0 <= k < p.ins(q).succs().len()
        && #[trigger] p.ins(q).succs()[k] == InstructionId(c) ==> names_within(p, q, c)
}

/// The names of the debug symbols of `p` in the slots below `j`.
pub(crate) open spec fn names_below(p: &Parser, j: int) -> Set<Seq<u8>>
    decreases j,
{
    if j <= 0 {
        Set::empty()
    } else {
        names_below(p, j - 1).union(
            if p.debug_symbols.has((j - 1) as usize) { p.debug_symbols.value((j - 1) as usize).names@.to_set() } else { Set::empty() },
        )
    }
}

/// The names below a slot are finitely many, and hold each name of each
/// debug symbol below it.
proof fn lemma_names_below(p: &Parser, j: int)
    ensures
        names_below(p, j).finite(),
        forall|i: usize, k: Seq<u8>| i < j && p.debug_symbols.has(i) && #[trigger] p.debug_symbols.value(i).names@.contains(k)
            ==> names_below(p, j).contains(k),
    decreases j,
{
    broadcast use vstd::seq_lib::seq_to_set_is_finite;
    if j > 0 {
        lemma_names_below(p, j - 1);
        assert forall|i: usize, k: Seq<u8>| i < j && p.debug_symbols.has(i) && #[trigger] p.debug_symbols.value(i).names@.contains(k)
            implies names_below(p, j).contains(k) by {
            if i == j - 1 {
                assert(p.debug_symbols.value(i).names@.to_set().contains(k));
            }
        }
    }
}

/// How many names of `bound` the debug symbols of the candidates below
/// slot `i` still lack, where each may hold at most `bound` names.
pub(crate) open spec fn deficit(p: &Parser, candidate: Seq<bool>, bound: nat, i: int) -> nat
    decreases i,
{
    if i <= 0 {
        0
    } else {
        deficit(p, candidate, bound, i - 1) + if candidate[i - 1] {
            (bound - p.debug_symbols.value((i - 1) as usize).names@.to_set().len()) as nat
        } else {
            0nat
        }
    }
}

/// Giving one candidate more names, and leaving the others as they are,
/// lowers the deficit.
proof fn lemma_deficit_drop(p: &Parser, q: &Parser, candidate: Seq<bool>, bound: nat, id: int, i: int)
    requires
        0 <= id,
        candidate[id],
        forall|j: int| 0 <= j < i && j != id && candidate[j] ==> #[trigger] q.debug_symbols.value(j as usize).names@.to_set()
            == p.debug_symbols.value(j as usize).names@.to_set(),
        p.debug_symbols.value(id as usize).names@.to_set().len() < q.debug_symbols.value(id as usize).names@.to_set().len(),
        q.debug_symbols.value(id as usize).names@.to_set().len() <= bound,
    ensures
        i > id ==> deficit(q, candidate, bound, i) < deficit(p, candidate, bound, i),
        i <= id ==> deficit(q, candidate, bound, i) == deficit(p, candidate, bound, i),
    decreases i,
{
    if i > 0 {
        lemma_deficit_drop(p, q, candidate, bound, id, i - 1);
        if i - 1 != id && candidate[i - 1] {
            assert(q.debug_symbols.value((i - 1) as usize).names@.to_set() == p.debug_symbols.value((i - 1) as usize).names@.to_set());
        }
    }
}

impl Parser {
    /// Numbers the cache instructions in the order of their identifiers,
    /// from zero.
    #[verifier::rlimit(30)]
    pub(crate) fn assign_cache_ids(&mut self)
        requires
            old(self).wf(),
        ensures
            final(self).wf(),
            final(self).start == old(self).start,
            forall|i: usize| #[trigger] final(self).has(i) == old(self).has(i),
            forall|i: usize| #[trigger] old(self).has(i) ==> match old(self).ins(i) {
                Instruction::Cache(target, _) => final(self).ins(i) == Instruction::Cache(target, Some(caches_below(old(self), i as int) as usize)),
                other => final(self).ins(i) == other,
            },
    {
        let n = self.instructions.next_index();
        let ghost on_entry = *self;
        let mut next: usize = 0;
        let mut i: usize = 0;
        while i < n
            invariant
                n == on_entry.size(),
                i <= n,
                on_entry.wf(),
                next == caches_below(&on_entry, i as int),
                next <= i,
                self.wf(),
                self.start == on_entry.start,
                self.size() == on_entry.size(),
                forall|j: usize| #[trigger] self.has(j) == on_entry.has(j),
                forall|j: usize| j >= i && #[trigger] on_entry.has(j) ==> self.ins(j) == on_entry.ins(j),
                forall|j: usize| j < i && on_entry.has(j) ==> #[trigger] numbered(&on_entry, self, j),
            decreases n - i,
        {
            let ghost prior = *self;
            proof {
                assert(caches_below(&on_entry, i + 1) == caches_below(&on_entry, i as int)
                    + if on_entry.has(i) && on_entry.ins(i) is Cache { 1nat } else { 0nat });
                if on_entry.has(i) {
                    assert(self.has(i));
                    assert(self.ins(i) == on_entry.ins(i));
                }
            }
            next = self.number_cache(i, next);
            proof {
                assert forall|j: usize| #[trigger] self.has(j) == on_entry.has(j) by {
                    assert(prior.has(j) == on_entry.has(j));
                }
                assert forall|j: usize| j >= i + 1 && #[trigger] on_entry.has(j) implies self.ins(j) == on_entry.ins(j) by {
                    assert(prior.has(j));
                    assert(self.has(j));
                }
                assert forall|j: usize| j < i + 1 && on_entry.has(j) implies #[trigger] numbered(&on_entry, self, j) by {
                    assert(prior.has(j));
                    assert(self.has(j));
                    if j < i {
                        assert(numbered(&on_entry, &prior, j));
                    }
                }
            }
            i += 1;
        }
        proof {
            assert forall|j: usize| #[trigger] on_entry.has(j) implies match on_entry.ins(j) {
                Instruction::Cache(target, _) => self.ins(j) == Instruction::Cache(target, Some(caches_below(&on_entry, j as int) as usize)),
                other => self.ins(j) == other,
            } by {
                assert(numbered(&on_entry, self, j));
            }
        }
    }

    /// Numbers instruction `i` with `next`, if it is a cache instruction,
    /// and returns the next number.
    fn number_cache(&mut self, i: usize, next: usize) -> (following: usize)
        requires
            old(self).wf(),
            next <= i,
            i < usize::MAX,
        ensures
            final(self).wf(),
            final(self).start == old(self).start,
            final(self).size() == old(self).size(),
            forall|j: usize| #[trigger] final(self).has(j) == old(self).has(j),
            forall|j: usize| #[trigger] final(self).has(j) && j != i ==> final(self).ins(j) == old(self).ins(j),
            following == next + if old(self).has(i) && old(self).ins(i) is Cache { 1nat } else { 0nat },
            old(self).has(i) ==> match old(self).ins(i) {
                Instruction::Cache(target, _) => final(self).ins(i) == Instruction::Cache(target, Some(next)),
                other => final(self).ins(i) == other,
            },
    {
        if self.instructions.contains(InstructionId(i)) {
            if let Instruction::Cache(target, _) = self.instruction(InstructionId(i)) {
                proof {
                    assert(self.closed_at(i));
                    assert(self.ins(i).succs()[0] == target);
                    assert(Instruction::Cache(target, Some(next)).succs()[0] == target);
                }
                self.replace_instruction(InstructionId(i), Instruction::Cache(target, Some(next)));
                return next + 1;
            }
        }
        next
    }

    /// Gives each instruction of the walk that has no rule name the names
    /// of the instructions that refer to it, until nothing changes.
    pub(crate) fn infer_debug_symbols(&mut self)
        requires
            old(self).wf(),
        ensures
            final(self).wf(),
            final(self).start == old(self).start,
            final(self).instructions == old(self).instructions,
            final(self).series == old(self).series,
            final(self).labels == old(self).labels,
            final(self).expecteds == old(self).expecteds,
            forall|i: usize| #[trigger] final(self).debug_symbols.has(i) == old(self).debug_symbols.has(i),
            forall|i: usize, k: Seq<u8>| #[trigger] old(self).debug_symbols.has(i)
                && #[trigger] old(self).debug_symbols.value(i).names@.contains(k)
                ==> final(self).debug_symbols.value(i).names@.contains(k),
            forall|i: usize| #[trigger] old(self).debug_symbols.has(i) && old(self).debug_symbols.value(i).names@.len() > 0
                ==> final(self).debug_symbols.value(i) == old(self).debug_symbols.value(i),
            forall|i: usize, k: Seq<u8>| #[trigger] final(self).debug_symbols.has(i)
                && #[trigger] final(self).debug_symbols.value(i).names@.contains(k) ==> known_name(old(self), k),
            forall|c: usize| old(self).reachable(c) && old(self).debug_symbols.value(c).names@.len() == 0
                ==> #[trigger] names_passed_to(final(self), c),
    {
        let order = self.walk();
        let n = self.instructions.next_index();
        let mut candidate: Vec<bool> = Vec::new();
        while candidate.len() < n
            invariant
                candidate@.len() <= n,
                forall|j: int| 0 <= j < candidate@.len() ==> !#[trigger] candidate@[j],
            decreases n - candidate@.len(),
        {
            candidate.push(false);
        }
        let mut queue: Vec<InstructionId> = Vec::new();
        let mut k: usize = 0;
        while k < order.len()
            invariant
                n == self.size(),
                candidate@.len() == n,
                self.wf(),
                forall|j: int| 0 <= j < order@.len() ==> self.reachable(#[trigger] order@[j].0),
                forall|j: int| 0 <= j < queue@.len() ==> self.has((#[trigger] queue@[j]).0),
                forall|j: int| 0 <= j < queue@.len() ==> candidate@[(#[trigger] queue@[j]).0 as int],
                forall|i: int| 0 <= i < n && #[trigger] candidate@[i] ==> self.debug_symbols.value(i as usize).names@.len() == 0,
                k <= order@.len(),
                forall|c: int| 0 <= c < n && #[trigger] candidate@[c] ==> self.has(c as usize)
                    && queue@.contains(InstructionId(c as usize)),
                forall|j: int| 0 <= j < k && self.debug_symbols.value((#[trigger] order@[j]).0).names@.len() == 0
                    ==> order@[j].0 < n && candidate@[order@[j].0 as int],
            decreases order@.len() - k,
        {
            let id = order[k];
            proof {
                assert(self.reachable(order@[k as int].0));
                assert(self.debug_symbols.has(id.0));
            }
            if self.debug_symbols.get(id).names.is_empty() {
                proof {
                    assert(self.has(id.0));
                }
                let ghost q2 = queue@;
                candidate.set(id.0, true);
                queue.push(id);
                proof {
                    assert(queue@[q2.len() as int] == id);
                    assert forall|c: int| 0 <= c < n && #[trigger] candidate@[c] implies self.has(c as usize)
                        && queue@.contains(InstructionId(c as usize)) by {
                        if c != id.0 {
                            let j = choose|j: int| 0 <= j < q2.len() && q2[j] == InstructionId(c as usize);
                            assert(queue@[j] == q2[j]);
                        }
                    }
                }
            }
            k += 1;
        }
        proof {
            assert forall|i: usize| #[trigger] self.reachable(i) && self.debug_symbols.value(i).names@.len() == 0
                implies i < n && candidate@[i as int] by {
                let j = choose|j: int| 0 <= j < order@.len() && #[trigger] order@[j].0 == i;
                assert(order@[j].0 == i);
            }
            assert forall|c: usize| c < n && candidate@[c as int] && !queue@.contains(InstructionId(c))
                implies #[trigger] names_passed_to(self, c) by {
                assert(queue@.contains(InstructionId(c)));
            }
        }
        let predecessors = self.compute_predecessors();
        let ghost on_entry = *self;
        let ghost bound_set = names_below(&on_entry, on_entry.debug_symbols@.len() as int);
        let ghost bound = bound_set.len();
        proof {
            lemma_names_below(&on_entry, on_entry.debug_symbols@.len() as int);
            assert forall|key: Seq<u8>| known_name(&on_entry, key) implies #[trigger] bound_set.contains(key) by {
                let j = choose|j: usize| #[trigger] on_entry.debug_symbols.has(j) && on_entry.debug_symbols.value(j).names@.contains(key);
                assert(on_entry.debug_symbols.value(j).names@.contains(key));
            }
        }
        while queue.len() > 0
            invariant
                n == self.size(),
                candidate@.len() == n,
                self.wf(),
                on_entry.wf(),
                self.start == on_entry.start,
                self.instructions == on_entry.instructions,
                self.series == on_entry.series,
                self.labels == on_entry.labels,
                self.expecteds == on_entry.expecteds,
                predecessors_of(&on_entry, predecessors@),
                forall|j: int| 0 <= j < queue@.len() ==> self.has((#[trigger] queue@[j]).0),
                forall|i: usize| #[trigger] self.debug_symbols.has(i) == on_entry.debug_symbols.has(i),
                forall|i: usize, key: Seq<u8>| #[trigger] on_entry.debug_symbols.has(i)
                    && #[trigger] on_entry.debug_symbols.value(i).names@.contains(key)
                    ==> self.debug_symbols.value(i).names@.contains(key),
                forall|j: int| 0 <= j < queue@.len() ==> candidate@[(#[trigger] queue@[j]).0 as int],
                forall|i: int| 0 <= i < n && #[trigger] candidate@[i] ==> on_entry.debug_symbols.value(i as usize).names@.len() == 0,
                forall|i: usize| #[trigger] on_entry.debug_symbols.has(i) && !(i < n && candidate@[i as int])
                    ==> self.debug_symbols.value(i) == on_entry.debug_symbols.value(i),
                forall|i: usize, key: Seq<u8>| #[trigger] self.debug_symbols.has(i)
                    && #[trigger] self.debug_symbols.value(i).names@.contains(key) ==> known_name(&on_entry, key),
                forall|i: usize| #[trigger] on_entry.reachable(i) && on_entry.debug_symbols.value(i).names@.len() == 0
                    ==> i < n && candidate@[i as int],
                forall|c: int| 0 <= c < n && #[trigger] candidate@[c] ==> on_entry.has(c as usize),
                forall|c: usize| c < n && candidate@[c as int] && !queue@.contains(InstructionId(c))
                    ==> #[trigger] names_passed_to(self, c),
                bound_set.finite(),
                bound == bound_set.len(),
                forall|key: Seq<u8>| known_name(&on_entry, key) ==> #[trigger] bound_set.contains(key),
            decreases deficit(self, candidate@, bound, n as int), queue@.len(),
        {
            let ghost q0 = queue@;
            let id = queue.pop().unwrap();
            proof {
                assert(queue@ == q0.drop_last());
                assert(id == q0.last());
            }
            let list = &predecessors[id.0];
            let mut symbols: Vec<&DebugSymbol> = Vec::new();
            let mut m: usize = 0;
            while m < list.len()
                invariant
                    m <= list@.len(),
                    self.wf(),
                    predecessors_of(&on_entry, predecessors@),
                    self.instructions == on_entry.instructions,
                    *list == predecessors@[id.0 as int],
                    id.0 < predecessors@.len(),
                    forall|i: usize| #[trigger] self.debug_symbols.has(i) == on_entry.debug_symbols.has(i),
                    symbols@.len() == m,
                    forall|x: int| 0 <= x < m ==> self.debug_symbols.has(#[trigger] list@[x].0),
                    forall|x: int| 0 <= x < m ==> *(#[trigger] symbols@[x]) == self.debug_symbols.value(list@[x].0),
                decreases list@.len() - m,
            {
                let q = list[m];
                proof {
                    assert(on_entry.has(q.0));
                    assert(self.has(q.0));
                }
                let ghost before = symbols@;
                symbols.push(self.debug_symbols.get(q));
                proof {
                    assert forall|x: int| 0 <= x < m + 1 implies self.debug_symbols.has(#[trigger] list@[x].0) by {
                        if x == m {
                            assert(on_entry.has(q.0));
                            assert(self.has(q.0));
                        }
                    }
                    assert forall|x: int| 0 <= x < m + 1 implies *(#[trigger] symbols@[x]) == self.debug_symbols.value(list@[x].0) by {
                        if x < m {
                            assert(symbols@[x] == before[x]);
                        } else {
                            assert(list@[x] == q);
                            assert(on_entry.has(q.0));
                            assert(self.has(q.0));
                            assert(self.debug_symbols.has(q.0));
                            assert(*symbols@[x] == self.debug_symbols.value(q.0));
                        }
                    }
                }
                m += 1;
            }
            let merged = DebugSymbol::merge_many(&symbols);
            proof {
                assert(self.debug_symbols.has(id.0));
            }
            let current = self.debug_symbols.get(id);
            let ghost current_names = current.names@;
            let new_symbol = DebugSymbol::merge(&merged, current);
            proof {
                assert forall|key: Seq<u8>| new_symbol.names@.contains(key) implies known_name(&on_entry, key) by {
                    if merged.names@.contains(key) {
                        let x = choose|x: int| 0 <= x < symbols@.len() && (#[trigger] symbols@[x]).names@.contains(key);
                        assert(self.debug_symbols.has(list@[x].0));
                        assert(self.debug_symbols.value(list@[x].0).names@.contains(key));
                    } else {
                        assert(current_names.contains(key));
                        assert(self.debug_symbols.value(id.0).names@.contains(key));
                    }
                }
                assert forall|q: usize, kk: int| self.has(q) && 0 <= kk < self.ins(q).succs().len()
                    && #[trigger] self.ins(q).succs()[kk] == id
                    implies (forall|key: Seq<u8>| #[trigger] self.debug_symbols.value(q).names@.contains(key)
                        ==> new_symbol.names@.contains(key)) by {
                    assert(on_entry.has(q));
                    assert(on_entry.ins(q) == self.ins(q));
                    assert(on_entry.ins(q).succs()[kk] == id);
                    assert(crate::compiler::class::occurs_in(InstructionId(q), predecessors@[on_entry.ins(q).succs()[kk].0 as int]@));
                    let x = choose|x: int| 0 <= x < list@.len() && list@[x] == InstructionId(q);
                    assert forall|key: Seq<u8>| #[trigger] self.debug_symbols.value(q).names@.contains(key)
                        implies new_symbol.names@.contains(key) by {
                        assert(*symbols@[x] == self.debug_symbols.value(list@[x].0));
                        assert(symbols@[x].names@.contains(key));
                    }
                }
            }
            let ghost before = *self;
            proof {
                assert forall|c: usize| c != id.0 && !queue@.contains(InstructionId(c))
                    implies !q0.contains(InstructionId(c)) by {
                    if q0.contains(InstructionId(c)) {
                        let j = choose|j: int| 0 <= j < q0.len() && q0[j] == InstructionId(c);
                        if j < q0.len() - 1 {
                            assert(queue@[j] == q0[j]);
                        }
                    }
                }
            }
            if !new_symbol.names.equals(&current.names) {
                let ghost prior = *self;
                proof {
                    assert(exists|key: Seq<u8>| new_symbol.names@.contains(key) && !current_names.contains(key)) by {
                        if forall|key: Seq<u8>| new_symbol.names@.contains(key) == current_names.contains(key) {
                            lemma_ascending_unique(new_symbol.names@, current_names);
                        }
                    }
                    let key = choose|key: Seq<u8>| new_symbol.names@.contains(key) && !current_names.contains(key);
                    broadcast use vstd::seq_lib::seq_to_set_is_finite;
                    assert(current_names.to_set().subset_of(new_symbol.names@.to_set()));
                    current_names.to_set().lemma_subset_not_in_lt(new_symbol.names@.to_set(), key);
                    assert(new_symbol.names@.to_set().subset_of(bound_set));
                    lemma_len_subset(new_symbol.names@.to_set(), bound_set);
                }
                self.debug_symbols.set(id, new_symbol);
                proof {
                    assert(self.debug_symbols.value(id.0) == new_symbol);
                    assert(prior.debug_symbols.value(id.0).names@ == current_names);
                    assert forall|j: int| 0 <= j < n && j != id.0 && candidate@[j] implies #[trigger] self.debug_symbols.value(j as usize).names@.to_set()
                        == prior.debug_symbols.value(j as usize).names@.to_set() by {
                        assert(on_entry.has(j as usize));
                        assert(prior.debug_symbols.has(j as usize));
                        assert(self.debug_symbols@[j] == prior.debug_symbols@[j]);
                    }
                    lemma_deficit_drop(&prior, self, candidate@, bound, id.0 as int, n as int);
                }
                proof {
                    assert(candidate@[id.0 as int]);
                    assert forall|i: usize| #[trigger] on_entry.debug_symbols.has(i) && !(i < n && candidate@[i as int])
                        implies self.debug_symbols.value(i) == on_entry.debug_symbols.value(i) by {
                        assert(prior.debug_symbols.has(i));
                        assert(i != id.0);
                        assert(self.debug_symbols@[i as int] == prior.debug_symbols@[i as int]);
                    }
                    assert forall|i: usize, key: Seq<u8>| #[trigger] self.debug_symbols.has(i)
                        && #[trigger] self.debug_symbols.value(i).names@.contains(key) implies known_name(&on_entry, key) by {
                        if i != id.0 {
                            assert(prior.debug_symbols.has(i));
                            assert(self.debug_symbols@[i as int] == prior.debug_symbols@[i as int]);
                            assert(prior.debug_symbols.value(i).names@.contains(key));
                        } else {
                            assert(self.debug_symbols.value(i) == new_symbol);
                        }
                    }
                    assert forall|i: usize| #[trigger] self.debug_symbols.has(i) == on_entry.debug_symbols.has(i) by {
                        assert(prior.debug_symbols.has(i) == on_entry.debug_symbols.has(i));
                    }
                    assert forall|i: usize, key: Seq<u8>| #[trigger] on_entry.debug_symbols.has(i)
                        && #[trigger] on_entry.debug_symbols.value(i).names@.contains(key)
                        implies self.debug_symbols.value(i).names@.contains(key) by {
                        assert(prior.debug_symbols.value(i).names@.contains(key));
                        assert(prior.debug_symbols.has(i));
                        if i == id.0 {
                            assert(current_names.contains(key));
                            assert(self.debug_symbols.value(i) == new_symbol);
                        } else {
                            assert(self.debug_symbols@[i as int] == prior.debug_symbols@[i as int]);
                        }
                    }
                    assert forall|i: usize| #[trigger] self.has(i) implies self.debug_symbols.has(i) by {
                        assert(on_entry.has(i));
                        assert(on_entry.debug_symbols.has(i));
                    }
                }
                let successors = self.instruction(id).successors();
                proof {
                    assert(on_entry.closed_at(id.0));
                    assert forall|i: usize| self.has(i) implies #[trigger] self.closed_at(i) by {
                        assert(on_entry.closed_at(i));
                    }
                    assert(self.has(self.start.0));
                    assert(self.graph_wf());
                    assert forall|i: usize| #[trigger] self.has(i) implies match self.ins(i) {
                        Instruction::Series(x) => self.series.has(x.0),
                        _ => true,
                    } by {
                        assert(on_entry.has(i));
                    }
                    assert forall|i: usize| #[trigger] self.has(i) implies match self.ins(i) {
                        Instruction::Label(_, l) => self.labels.has(l.0),
                        _ => true,
                    } by {
                        assert(on_entry.has(i));
                    }
                    assert forall|i: usize| #[trigger] self.has(i) implies match self.ins(i) {
                        Instruction::Error(_, e) => self.expecteds.has(e.0),
                        _ => true,
                    } by {
                        assert(on_entry.has(i));
                    }
                    assert(self.body_wf());
                    assert(self.wf());
                }
                let ghost q1 = queue@;
                let mut s: usize = 0;
                while s < successors.len()
                    invariant
                        q1.len() <= queue@.len(),
                        forall|j: int| 0 <= j < q1.len() ==> queue@[j] == q1[j],
                        forall|k2: int| 0 <= k2 < s && candidate@[successors@[k2].0 as int]
                            ==> queue@.contains(#[trigger] successors@[k2]),
                        s <= successors@.len(),
                        successors@ == self.ins(id.0).succs(),
                        forall|k2: int| 0 <= k2 < successors@.len() ==> self.has(#[trigger] successors@[k2].0),
                        forall|j: int| 0 <= j < queue@.len() ==> self.has((#[trigger] queue@[j]).0),
                        forall|j: int| 0 <= j < queue@.len() ==> candidate@[(#[trigger] queue@[j]).0 as int],
                        candidate@.len() == n,
                        n == self.size(),
                    decreases successors@.len() - s,
                {
                    let successor = successors[s];
                    let ghost q2 = queue@;
                    if candidate[successor.0] {
                        queue.push(successor);
                        proof {
                            assert(queue@[q2.len() as int] == successor);
                        }
                    }
                    proof {
                        assert forall|k2: int| 0 <= k2 < s + 1 && candidate@[successors@[k2].0 as int]
                            implies queue@.contains(#[trigger] successors@[k2]) by {
                            if k2 < s {
                                let j = choose|j: int| 0 <= j < q2.len() && q2[j] == successors@[k2];
                                assert(queue@[j] == q2[j]);
                            } else {
                                assert(queue@[q2.len() as int] == successors@[k2]);
                            }
                        }
                    }
                    s += 1;
                }
                proof {
                    assert forall|c: usize| c < n && candidate@[c as int] && !queue@.contains(InstructionId(c))
                        implies #[trigger] names_passed_to(self, c) by {
                        if c == id.0 {
                            assert forall|q: usize, kk: int| self.has(q) && 0 <= kk < self.ins(q).succs().len()
                                && #[trigger] self.ins(q).succs()[kk] == InstructionId(c) implies names_within(self, q, c) by {
                                assert(before.ins(q) == self.ins(q));
                                assert(before.has(q));
                                assert(before.ins(q).succs()[kk] == id);
                                assert(self.debug_symbols.value(id.0) == new_symbol);
                                if q != id.0 {
                                    assert(on_entry.has(q));
                                    assert(before.debug_symbols.has(q));
                                    assert(self.debug_symbols@[q as int] == before.debug_symbols@[q as int]);
                                    assert forall|key: Seq<u8>| #[trigger] self.debug_symbols.value(q).names@.contains(key)
                                        implies self.debug_symbols.value(c).names@.contains(key) by {
                                        assert(before.debug_symbols.value(q).names@.contains(key));
                                    }
                                }
                            }
                        } else {
                            assert(!q1.contains(InstructionId(c))) by {
                                if q1.contains(InstructionId(c)) {
                                    let j = choose|j: int| 0 <= j < q1.len() && q1[j] == InstructionId(c);
                                    assert(queue@[j] == q1[j]);
                                }
                            }
                            assert(!q0.contains(InstructionId(c)));
                            assert(names_passed_to(&before, c));
                            assert forall|q: usize, kk: int| self.has(q) && 0 <= kk < self.ins(q).succs().len()
                                && #[trigger] self.ins(q).succs()[kk] == InstructionId(c) implies names_within(self, q, c) by {
                                assert(before.ins(q) == self.ins(q));
                                assert(before.has(q));
                                assert(before.ins(q).succs()[kk] == InstructionId(c));
                                if q == id.0 {
                                    assert(successors@[kk] == InstructionId(c));
                                    assert(candidate@[successors@[kk].0 as int]);
                                    assert(queue@.contains(successors@[kk]));
                                    assert(false);
                                } else {
                                    assert(on_entry.has(q));
                                    assert(before.debug_symbols.has(q));
                                    assert(on_entry.has(c));
                                    assert(before.debug_symbols.has(c));
                                    assert(self.debug_symbols@[q as int] == before.debug_symbols@[q as int]);
                                    assert(self.debug_symbols@[c as int] == before.debug_symbols@[c as int]);
                                    assert(names_within(&before, q, c));
                                    assert forall|key: Seq<u8>| #[trigger] self.debug_symbols.value(q).names@.contains(key)
                                        implies self.debug_symbols.value(c).names@.contains(key) by {
                                        assert(before.debug_symbols.value(q).names@.contains(key));
                                    }
                                }
                            }
                        }
                    }
                }
            } else {
                proof {
                    assert forall|c: usize| c < n && candidate@[c as int] && !queue@.contains(InstructionId(c))
                        implies #[trigger] names_passed_to(self, c) by {
                        if c == id.0 {
                            assert forall|q: usize, kk: int| self.has(q) && 0 <= kk < self.ins(q).succs().len()
                                && #[trigger] self.ins(q).succs()[kk] == InstructionId(c) implies names_within(self, q, c) by {
                                assert forall|key: Seq<u8>| #[trigger] self.debug_symbols.value(q).names@.contains(key)
                                    implies self.debug_symbols.value(c).names@.contains(key) by {
                                    assert(new_symbol.names@.contains(key));
                                }
                            }
                        } else {
                            assert(!q0.contains(InstructionId(c)));
                        }
                    }
                }
            }
        }
        proof {
            assert(*old(self) == on_entry);
        }
    }
}

} // verus!
