use crate::compiler::instruction::{ExpectedId, Instruction, InstructionId, LabelId, SeriesId};
use crate::compiler::transform::normalize::lemma_ok_of_wf;
use crate::compiler::transform::components::falses;
use crate::compiler::transform::dedup::{redirected, remapped};
use crate::compiler::transform::trim::{indices, refers};
use crate::compiler::{DebugSymbol, Parser};
use crate::store::{Store, StoreKey};
use vstd::prelude::*;

verus! {

/// `order` lists each instruction that can be reached from the start once,
/// the start first.
pub(crate) open spec fn is_walk(p: &Parser, order: Seq<InstructionId>) -> bool {
    &&& order.len() > 0 && order[0] == p.start
    &&& forall|a: int, b: int| 0 <= a < b < order.len() ==> order[a] != order[b]
    &&& forall|i: usize| p.reachable(i) <==> exists|k: int| 0 <= k < order.len() && #[trigger] order[k].0 == i
}

/// `new` holds the instructions that `order` lists, each numbered by its
/// place in `order`, with the same debug names and with its references
/// renumbered by `m`, which sends each listed instruction to its place.
pub(crate) open spec fn renumbered_instructions(old: &Parser, new: &Parser, order: Seq<InstructionId>, m: Seq<usize>) -> bool {
    &&& new.size() == order.len()
    &&& forall|j: int| 0 <= j < order.len() ==> #[trigger] m[order[j].0 as int] == j
    &&& forall|j: usize| j < order.len() ==> #[trigger] new.ins(j) == remapped(old.ins(order[j as int].0), m)
        && new.debug_symbols.value(j).names@ == old.debug_symbols.value(order[j as int].0).names@
}

/// `b` is `a` with its instructions numbered in the order of a walk, and
/// its series, labels and expected sets in the order of first reference.
pub(crate) open spec fn sorted(a: &Parser, b: &Parser) -> bool {
    &&& b.wf()
    &&& b.start.0 == 0
    &&& forall|i: usize| i < b.size() ==> #[trigger] b.has(i)
    &&& exists|x: Parser, y: Parser, z: Parser, order: Seq<InstructionId>, m: Seq<usize>, m0: Seq<usize>, m1: Seq<usize>, m2: Seq<usize>|
        #[trigger] is_walk(a, order) && #[trigger] renumbered_instructions(a, &x, order, m)
        && #[trigger] renumbered(&x, &y, 0, m0) && #[trigger] renumbered(&y, &z, 1, m1) && #[trigger] renumbered(&z, b, 2, m2)
}

impl Parser {
    /// Numbers the instructions in the order of a walk, from the start;
    /// then the series, labels and expected sets in the order in which the
    /// walk first meets them. This is not needed, but makes the output
    /// easier to read.
    pub(crate) fn sort(&mut self)
        requires
            old(self).wf(),
        ensures
            final(self).wf(),
            final(self).start.0 == 0,
            forall|i: usize| i < final(self).size() ==> #[trigger] final(self).has(i),
            sorted(old(self), final(self)),
    {
        let ghost a = *self;
        self.sort_instructions();
        let ghost x = *self;
        self.sort_series();
        let ghost y = *self;
        self.sort_labels();
        let ghost z = *self;
        self.sort_expecteds();
        proof {
            let order = choose|order: Seq<InstructionId>, m: Seq<usize>| #[trigger] is_walk(&a, order)
                && #[trigger] renumbered_instructions(&a, &x, order, m);
            let m0 = choose|m: Seq<usize>| #[trigger] renumbered(&x, &y, 0, m);
            let m1 = choose|m: Seq<usize>| #[trigger] renumbered(&y, &z, 1, m);
            let m2 = choose|m: Seq<usize>| #[trigger] renumbered(&z, self, 2, m);
            assert(is_walk(&a, order.0) && renumbered_instructions(&a, &x, order.0, order.1)
                && renumbered(&x, &y, 0, m0) && renumbered(&y, &z, 1, m1) && renumbered(&z, self, 2, m2));
            assert forall|i: usize| i < self.size() implies #[trigger] self.has(i) by {
                assert(z.has(i) == self.has(i));
                assert(y.has(i) == z.has(i));
                assert(x.has(i) == y.has(i));
            }
        }
    }

    /// Numbers the instructions in the order of a walk.
    fn sort_instructions(&mut self)
        requires
            old(self).wf(),
        ensures
            final(self).wf(),
            final(self).start.0 == 0,
            forall|i: usize| i < final(self).size() ==> #[trigger] final(self).has(i),
            final(self).series == old(self).series,
            final(self).labels == old(self).labels,
            final(self).expecteds == old(self).expecteds,
            exists|order: Seq<InstructionId>, m: Seq<usize>| #[trigger] is_walk(old(self), order)
                && #[trigger] renumbered_instructions(old(self), final(self), order, m),
    {
        let ghost on_entry = *self;
        let order = self.walk();
        let n = self.instructions.next_index();
        let count = order.len();
        let mut mapping: Vec<usize> = Vec::new();
        while mapping.len() < n
            invariant
                mapping@.len() <= n,
            decreases n - mapping@.len(),
        {
            mapping.push(0);
        }
        let mut k: usize = 0;
        while k < count
            invariant
                count == order@.len(),
                n == self.size(),
                mapping@.len() == n,
                k <= count,
                forall|j: int| 0 <= j < order@.len() ==> self.reachable(#[trigger] order@[j].0),
                forall|a: int, b: int| 0 <= a < b < order@.len() ==> order@[a] != order@[b],
                forall|j: int| 0 <= j < k ==> #[trigger] mapping@[order@[j].0 as int] == j,
            decreases count - k,
        {
            proof {
                assert(self.reachable(order@[k as int].0));
            }
            let ghost before = mapping@;
            mapping.set(order[k].0, k);
            proof {
                assert forall|j: int| 0 <= j < k + 1 implies #[trigger] mapping@[order@[j].0 as int] == j by {
                    if j < k {
                        assert(order@[j] != order@[k as int]);
                        assert(before[order@[j].0 as int] == j);
                    }
                }
            }
            k += 1;
        }
        let mut instructions: Store<InstructionId, Instruction> = Store::new();
        let mut symbols: Store<InstructionId, DebugSymbol> = Store::new();
        let mut k: usize = 0;
        while k < count
            invariant
                count == order@.len(),
                n == self.size(),
                mapping@.len() == n,
                k <= count,
                self.wf(),
                instructions@.len() == k,
                symbols@.len() == k,
                forall|j: int| 0 <= j < k ==> (#[trigger] instructions@[j]) is Some && symbols@[j] is Some,
                forall|j: int| 0 <= j < order@.len() ==> self.reachable(#[trigger] order@[j].0),
                forall|i: usize| self.reachable(i) <==> exists|j: int| 0 <= j < order@.len() && #[trigger] order@[j].0 == i,
                forall|j: int| 0 <= j < count ==> #[trigger] mapping@[order@[j].0 as int] == j,
                forall|j: usize| j < k ==> {
                    let x = #[trigger] instructions.value(j);
                    &&& forall|m: int| 0 <= m < x.succs().len() ==> #[trigger] x.succs()[m].0 < count
                    &&& match x {
                        Instruction::Series(s) => self.series.has(s.0),
                        Instruction::Label(_, l) => self.labels.has(l.0),
                        Instruction::Error(_, e) => self.expecteds.has(e.0),
                        _ => true,
                    }
                },
                forall|j: usize| j < k ==> #[trigger] instructions.value(j) == remapped(self.ins(order@[j as int].0), mapping@)
                    && symbols.value(j).names@ == self.debug_symbols.value(order@[j as int].0).names@,
            decreases count - k,
        {
            let id = order[k];
            proof {
                assert(self.reachable(id.0));
                assert(self.closed_at(id.0));
                lemma_ok_of_wf(self, id.0);
            }
            let instruction = self.instruction(id);
            let successors = instruction.successors();
            let mut mapped: Vec<InstructionId> = Vec::new();
            let mut m: usize = 0;
            while m < successors.len()
                invariant
                    m <= successors@.len(),
                    successors@ == instruction.succs(),
                    instruction == self.ins(id.0),
                    self.reachable(id.0),
                    self.wf(),
                    n == self.size(),
                    mapping@.len() == n,
                    count == order@.len(),
                    mapped@.len() == m,
                    forall|i: usize| self.reachable(i) <==> exists|j: int| 0 <= j < order@.len() && #[trigger] order@[j].0 == i,
                    forall|j: int| 0 <= j < count ==> #[trigger] mapping@[order@[j].0 as int] == j,
                    forall|m2: int| 0 <= m2 < m ==> #[trigger] mapped@[m2].0 < count,
                    forall|m2: int| 0 <= m2 < m ==> #[trigger] mapped@[m2] == InstructionId(mapping@[successors@[m2].0 as int]),
                decreases successors@.len() - m,
            {
                let s = successors[m];
                proof {
                    assert(self.closed_at(id.0));
                    assert(self.has(s.0));
                    assert(self.succ_graph()[id.0 as int] == indices(self.ins(id.0).succs()));
                    assert(indices(self.ins(id.0).succs())[m as int] == s.0);
                    crate::compiler::reach::lemma_reaches_step(self.succ_graph(), self.start.0, id.0, s.0);
                    assert(self.reachable(s.0));
                    let j = choose|j: int| 0 <= j < order@.len() && #[trigger] order@[j].0 == s.0;
                    assert(mapping@[order@[j].0 as int] == j);
                }
                mapped.push(InstructionId(mapping[s.0]));
                m += 1;
            }
            assert(mapped@ =~= instruction.succs().map_values(|x: InstructionId| InstructionId(mapping@[x.0 as int])));
            let updated = instruction.with_successors(&mapped);
            assert(updated == remapped(instruction, mapping@));
            let ghost before = instructions;
            let ghost before_symbols = symbols;
            instructions.insert(updated);
            proof {
                assert(self.debug_symbols.has(id.0));
            }
            symbols.insert(self.debug_symbols.get(id).duplicate());
            proof {
                assert forall|j: int| 0 <= j < k + 1 implies (#[trigger] instructions@[j]) is Some && symbols@[j] is Some by {
                    if j < k {
                        assert(instructions@[j] == before@[j]);
                        assert(symbols@[j] == before_symbols@[j]);
                    }
                }
                assert forall|j: usize| j < k + 1 implies {
                    let x = #[trigger] instructions.value(j);
                    &&& forall|m2: int| 0 <= m2 < x.succs().len() ==> #[trigger] x.succs()[m2].0 < count
                    &&& match x {
                        Instruction::Series(s) => self.series.has(s.0),
                        Instruction::Label(_, l) => self.labels.has(l.0),
                        Instruction::Error(_, e) => self.expecteds.has(e.0),
                        _ => true,
                    }
                } by {
                    if j < k {
                        assert(instructions.value(j) == before.value(j));
                    } else {
                        assert(instructions.value(j) == updated);
                        assert(updated.succs() == mapped@);
                    }
                }
                assert forall|j: usize| j < k + 1 implies #[trigger] instructions.value(j) == remapped(self.ins(order@[j as int].0), mapping@)
                    && symbols.value(j).names@ == self.debug_symbols.value(order@[j as int].0).names@ by {
                    if j < k {
                        assert(instructions.value(j) == before.value(j));
                        assert(symbols.value(j) == before_symbols.value(j));
                    }
                }
            }
            k += 1;
        }
        proof {
            assert(self.reachable(self.start.0)) by {
                crate::compiler::reach::lemma_reaches_self(self.succ_graph(), self.start.0);
                assert(self.has(self.start.0));
            }
            assert(order@[0] == self.start);
            assert(mapping@[order@[0].0 as int] == 0);
        }
        let start = mapping[self.start.0];
        self.start = InstructionId(start);
        self.instructions = instructions;
        self.debug_symbols = symbols;
        proof {
            assert(self.instructions@[0] is Some);
            assert(self.instructions.has(0));
            assert(self.has(self.start.0));
            assert forall|i: usize| self.has(i) implies #[trigger] self.closed_at(i) by {
                let x = self.ins(i);
                assert(self.instructions.has(i));
                assert(i < count);
                assert(x == instructions.value(i));
                assert forall|m2: int| 0 <= m2 < x.succs().len() implies self.has(#[trigger] x.succs()[m2].0) by {
                    assert(x.succs()[m2].0 < count);
                    assert(self.instructions.has(x.succs()[m2].0));
                }
            }
            assert forall|i: usize| i < self.size() implies #[trigger] self.has(i) by {
                assert(self.instructions@[i as int] is Some);
            }
            assert forall|i: usize| #[trigger] self.has(i) implies match self.ins(i) {
                Instruction::Series(x) => self.series.has(x.0),
                _ => true,
            } by {
                assert(self.instructions.has(i));
            }
            assert forall|i: usize| #[trigger] self.has(i) implies match self.ins(i) {
                Instruction::Label(_, l) => self.labels.has(l.0),
                _ => true,
            } by {
                assert(self.instructions.has(i));
            }
            assert forall|i: usize| #[trigger] self.has(i) implies match self.ins(i) {
                Instruction::Error(_, e) => self.expecteds.has(e.0),
                _ => true,
            } by {
                assert(self.instructions.has(i));
            }
            assert forall|i: usize| #[trigger] self.has(i) implies self.debug_symbols.has(i) by {
                assert(self.debug_symbols@[i as int] is Some);
            }
            assert(is_walk(&on_entry, order@));
            assert forall|j: usize| j < order@.len() implies #[trigger] self.ins(j) == remapped(on_entry.ins(order@[j as int].0), mapping@)
                && self.debug_symbols.value(j).names@ == on_entry.debug_symbols.value(order@[j as int].0).names@ by {
                assert(instructions.value(j) == remapped(on_entry.ins(order@[j as int].0), mapping@));
            }
            assert(renumbered_instructions(&on_entry, self, order@, mapping@));
        }
    }
}

/// The resource of kind `kind` (0 for series, 1 for labels, 2 for expected
/// sets) that `ins` refers to.
fn resource_id(ins: Instruction, kind: u8) -> (r: Option<usize>)
    ensures
        forall|x: usize| refers(ins, kind as int, x) <==> r == Some(x),
{
    match ins {
        Instruction::Series(s) => if kind == 0 { Some(s.0) } else { None },
        Instruction::Label(_, l) => if kind == 1 { Some(l.0) } else { None },
        Instruction::Error(_, e) => if kind == 2 { Some(e.0) } else { None },
        _ => None,
    }
}

/// Moves the values that `order` names into a new store, numbered in the
/// order of `order`; returns, for each old key that `order` names, its new
/// key.
fn renumber<K: StoreKey, V>(store: &mut Store<K, V>, order: &Vec<usize>) -> (mapping: Vec<usize>)
    requires
        forall|a: int, b: int| 0 <= a < b < order@.len() ==> order@[a] != order@[b],
        forall|j: int| 0 <= j < order@.len() ==> old(store).has(#[trigger] order@[j]),
    ensures
        mapping@.len() == old(store)@.len(),
        final(store)@.len() == order@.len(),
        forall|k: usize| k < order@.len() ==> #[trigger] final(store).has(k),
        forall|j: int| 0 <= j < order@.len() ==> #[trigger] mapping@[order@[j] as int] == j
            && final(store).value(j as usize) == old(store).value(order@[j]),
{
    let ghost on_entry = *store;
    let n = store.next_index();
    let mut mapping: Vec<usize> = Vec::new();
    while mapping.len() < n
        invariant
            mapping@.len() <= n,
        decreases n - mapping@.len(),
    {
        mapping.push(0);
    }
    let mut fresh: Store<K, V> = Store::new();
    let mut j: usize = 0;
    while j < order.len()
        invariant
            n == on_entry@.len(),
            mapping@.len() == n,
            j <= order@.len(),
            store@.len() == n,
            forall|a: int, b: int| 0 <= a < b < order@.len() ==> order@[a] != order@[b],
            forall|x: int| 0 <= x < order@.len() ==> on_entry.has(#[trigger] order@[x]),
            forall|x: int| j <= x < order@.len() ==> #[trigger] store@[order@[x] as int] == on_entry@[order@[x] as int],
            fresh@.len() == j,
            forall|k: usize| k < j ==> #[trigger] fresh.has(k),
            forall|x: int| 0 <= x < j ==> #[trigger] mapping@[order@[x] as int] == x
                && fresh.value(x as usize) == on_entry.value(order@[x]),
        decreases order@.len() - j,
    {
        let r = order[j];
        assert(on_entry.has(r));
        assert(store@[r as int] == on_entry@[r as int]);
        let taken = store.take(K::from_usize(r));
        let value = taken.unwrap();
        let ghost old_fresh = fresh@;
        let ghost fresh_before = fresh;
        let key = fresh.insert(value);
        mapping.set(r, j);
        proof {
            assert forall|k: usize| k < j + 1 implies #[trigger] fresh.has(k) by {
                if k < j {
                    assert(fresh_before.has(k));
                    assert(fresh@[k as int] == old_fresh[k as int]);
                }
            }
            assert forall|x: int| j + 1 <= x < order@.len() implies #[trigger] store@[order@[x] as int] == on_entry@[order@[x] as int] by {
                assert(order@[x] != order@[j as int]);
            }
            assert forall|x: int| 0 <= x < j + 1 implies #[trigger] mapping@[order@[x] as int] == x
                && fresh.value(x as usize) == on_entry.value(order@[x]) by {
                if x < j {
                    assert(order@[x] != order@[j as int]);
                }
            }
        }
        j += 1;
    }
    *store = fresh;
    mapping
}

impl Parser {
    /// The resources of kind `kind` that instructions refer to, each once,
    /// in the order in which a walk from the start first meets them, then
    /// those of the instructions that the walk misses, by their number.
    fn resource_order(&self, kind: u8, count: usize) -> (order: Vec<usize>)
        requires
            self.wf(),
            kind <= 2,
            kind == 0 ==> count == self.series@.len(),
            kind == 1 ==> count == self.labels@.len(),
            kind == 2 ==> count == self.expecteds@.len(),
        ensures
            forall|a: int, b: int| 0 <= a < b < order@.len() ==> order@[a] != order@[b],
            forall|j: int| 0 <= j < order@.len() ==> #[trigger] order@[j] < count,
            forall|j: int| 0 <= j < order@.len() ==> self.referenced(kind as int, #[trigger] order@[j]),
            forall|i: usize, r: usize| #[trigger] self.has(i) && #[trigger] refers(self.ins(i), kind as int, r)
                ==> exists|j: int| 0 <= j < order@.len() && order@[j] == r,
    {
        let walk = self.walk();
        let n = self.instruction_count();
        let mut seen = falses(count);
        let mut order: Vec<usize> = Vec::new();
        let mut pass: usize = 0;
        while pass < 2
            invariant
                self.wf(),
                kind <= 2,
                kind == 0 ==> count == self.series@.len(),
                kind == 1 ==> count == self.labels@.len(),
                kind == 2 ==> count == self.expecteds@.len(),
                n == self.size(),
                forall|k: int| 0 <= k < walk@.len() ==> self.reachable(#[trigger] walk@[k].0),
                seen@.len() == count,
                forall|r: int| 0 <= r < count ==> (#[trigger] seen@[r] <==> exists|j: int| 0 <= j < order@.len() && order@[j] == r),
                forall|a: int, b: int| 0 <= a < b < order@.len() ==> order@[a] != order@[b],
                forall|j: int| 0 <= j < order@.len() ==> #[trigger] order@[j] < count,
                forall|j: int| 0 <= j < order@.len() ==> self.referenced(kind as int, #[trigger] order@[j]),
                pass <= 2,
                pass == 2 ==> forall|i: usize, r: usize| #[trigger] self.has(i) && #[trigger] refers(self.ins(i), kind as int, r) ==> seen@[r as int],
            decreases 2 - pass,
        {
            let limit = if pass == 0 { walk.len() } else { n };
            let mut k: usize = 0;
            while k < limit
                invariant
                    self.wf(),
                    kind <= 2,
                    kind == 0 ==> count == self.series@.len(),
                    kind == 1 ==> count == self.labels@.len(),
                    kind == 2 ==> count == self.expecteds@.len(),
                    n == self.size(),
                    pass < 2,
                    limit == if pass == 0 { walk@.len() as usize } else { n },
                    k <= limit,
                    forall|x: int| 0 <= x < walk@.len() ==> self.reachable(#[trigger] walk@[x].0),
                    seen@.len() == count,
                    forall|r: int| 0 <= r < count ==> (#[trigger] seen@[r] <==> exists|j: int| 0 <= j < order@.len() && order@[j] == r),
                    forall|a: int, b: int| 0 <= a < b < order@.len() ==> order@[a] != order@[b],
                    forall|j: int| 0 <= j < order@.len() ==> #[trigger] order@[j] < count,
                    forall|j: int| 0 <= j < order@.len() ==> self.referenced(kind as int, #[trigger] order@[j]),
                    pass == 1 ==> forall|i: usize, r: usize| i < k && #[trigger] self.has(i) && #[trigger] refers(self.ins(i), kind as int, r) ==> seen@[r as int],
                decreases limit - k,
            {
                let id = if pass == 0 { walk[k].0 } else { k };
                if self.instructions.contains(InstructionId(id)) {
                    assert(self.has(id));
                    let ins = self.instruction(InstructionId(id));
                    match resource_id(ins, kind) {
                        Some(r) => {
                            assert(refers(self.ins(id), kind as int, r));
                            proof {
                                match self.ins(id) {
                                    Instruction::Series(s) => assert(self.series.has(s.0)),
                                    Instruction::Label(_, l) => assert(self.labels.has(l.0)),
                                    Instruction::Error(_, e) => assert(self.expecteds.has(e.0)),
                                    _ => {},
                                }
                            }
                            if !seen[r] {
                                let ghost before = order@;
                                seen.set(r, true);
                                order.push(r);
                                proof {
                                    assert forall|x: int| 0 <= x < count implies (#[trigger] seen@[x] <==> exists|j: int| 0 <= j < order@.len() && order@[j] == x) by {
                                        if x != r {
                                            if exists|j: int| 0 <= j < order@.len() && order@[j] == x {
                                                let j = choose|j: int| 0 <= j < order@.len() && order@[j] == x;
                                                assert(j < before.len());
                                                assert(before[j] == x);
                                            }
                                            if exists|j: int| 0 <= j < before.len() && before[j] == x {
                                                let j = choose|j: int| 0 <= j < before.len() && before[j] == x;
                                                assert(order@[j] == x);
                                            }
                                        } else {
                                            assert(order@[before.len() as int] == r);
                                        }
                                    }
                                    assert forall|a: int, b: int| 0 <= a < b < order@.len() implies order@[a] != order@[b] by {
                                        if b == before.len() {
                                            if order@[a] == r {
                                                assert(before[a] == r);
                                                assert(seen@[r as int]);
                                            }
                                        }
                                    }
                                    assert forall|j: int| 0 <= j < order@.len() implies self.referenced(kind as int, #[trigger] order@[j]) by {
                                        if j == before.len() {
                                            assert(self.has(id) && refers(self.ins(id), kind as int, order@[j]));
                                        } else {
                                            assert(before[j] == order@[j]);
                                        }
                                    }
                                }
                            }
                        },
                        None => {},
                    }
                }
                proof {
                    if pass == 1 {
                        assert forall|i: usize, r: usize| i < k + 1 && #[trigger] self.has(i) && #[trigger] refers(self.ins(i), kind as int, r) implies seen@[r as int] by {
                            if i == k {
                                match self.ins(i) {
                                    Instruction::Series(s) => assert(self.series.has(s.0)),
                                    Instruction::Label(_, l) => assert(self.labels.has(l.0)),
                                    Instruction::Error(_, e) => assert(self.expecteds.has(e.0)),
                                    _ => {},
                                }
                            }
                        }
                    }
                }
                k += 1;
            }
            pass += 1;
        }
        proof {
            assert forall|i: usize, r: usize| #[trigger] self.has(i) && #[trigger] refers(self.ins(i), kind as int, r)
                implies exists|j: int| 0 <= j < order@.len() && order@[j] == r by {
                match self.ins(i) {
                    Instruction::Series(s) => assert(self.series.has(s.0)),
                    Instruction::Label(_, l) => assert(self.labels.has(l.0)),
                    Instruction::Error(_, e) => assert(self.expecteds.has(e.0)),
                    _ => {},
                }
                assert(seen@[r as int]);
            }
        }
        order
    }
}

/// The resource of kind `kind` numbered `r` in `old` is numbered `k` in
/// `new`, and holds the same value.
pub(crate) open spec fn moved_to(old: &Parser, new: &Parser, kind: int, r: usize, k: usize) -> bool {
    if kind == 0 {
        new.series.has(k) && new.series.value(k) == old.series.value(r)
    } else if kind == 1 {
        new.labels.has(k) && new.labels.value(k) == old.labels.value(r)
    } else {
        new.expecteds.has(k) && new.expecteds.value(k) == old.expecteds.value(r)
    }
}

/// `new` is `old` with the resources of kind `kind` that instructions refer
/// to renumbered by `m`, each to a number of its own.
pub(crate) open spec fn renumbered(old: &Parser, new: &Parser, kind: int, m: Seq<usize>) -> bool {
    &&& forall|i: usize| #[trigger] old.has(i) ==> new.ins(i) == redirected(old.ins(i), kind, m)
    &&& forall|r: usize| #[trigger] old.referenced(kind, r) ==> moved_to(old, new, kind, r, m[r as int])
    &&& forall|a: usize, b: usize| #[trigger] old.referenced(kind, a) && #[trigger] old.referenced(kind, b) && a != b
        ==> m[a as int] != m[b as int]
}

impl Parser {
    /// Points every reference to a resource of kind `kind` at its entry in
    /// `mapping`.
    fn renumber_references(&mut self, kind: u8, mapping: &Vec<usize>)
        requires
            kind <= 2,
            forall|i: usize, r: usize| #[trigger] old(self).has(i) && #[trigger] refers(old(self).ins(i), kind as int, r) ==> r < mapping@.len(),
        ensures
            final(self).start == old(self).start,
            final(self).series == old(self).series,
            final(self).labels == old(self).labels,
            final(self).expecteds == old(self).expecteds,
            final(self).debug_symbols == old(self).debug_symbols,
            final(self).size() == old(self).size(),
            forall|i: usize| #[trigger] final(self).has(i) == old(self).has(i),
            forall|i: usize| #[trigger] old(self).has(i) ==> final(self).ins(i) == redirected(old(self).ins(i), kind as int, mapping@),
    {
        let ghost on_entry = *self;
        let n = self.instruction_count();
        let mut i: usize = 0;
        while i < n
            invariant
                n == on_entry.size(),
                i <= n,
                kind <= 2,
                forall|x: usize, r: usize| #[trigger] on_entry.has(x) && #[trigger] refers(on_entry.ins(x), kind as int, r) ==> r < mapping@.len(),
                self.start == on_entry.start,
                self.series == on_entry.series,
                self.labels == on_entry.labels,
                self.expecteds == on_entry.expecteds,
                self.debug_symbols == on_entry.debug_symbols,
                self.size() == on_entry.size(),
                forall|x: usize| #[trigger] self.has(x) == on_entry.has(x),
                forall|x: usize| #[trigger] on_entry.has(x) && x < i ==> self.ins(x) == redirected(on_entry.ins(x), kind as int, mapping@),
                forall|x: usize| #[trigger] on_entry.has(x) && x >= i ==> self.ins(x) == on_entry.ins(x),
            decreases n - i,
        {
            if self.instructions.contains(InstructionId(i)) {
                assert(self.has(i));
                assert(on_entry.has(i));
                let ins = *self.instructions.get(InstructionId(i));
                let new = match ins {
                    Instruction::Series(s) if kind == 0 => {
                        assert(refers(on_entry.ins(i), 0, s.0));
                        Instruction::Series(SeriesId(mapping[s.0]))
                    },
                    Instruction::Label(t, l) if kind == 1 => {
                        assert(refers(on_entry.ins(i), 1, l.0));
                        Instruction::Label(t, LabelId(mapping[l.0]))
                    },
                    Instruction::Error(t, e) if kind == 2 => {
                        assert(refers(on_entry.ins(i), 2, e.0));
                        Instruction::Error(t, ExpectedId(mapping[e.0]))
                    },
                    _ => ins,
                };
                let ghost before = *self;
                self.instructions.set(InstructionId(i), new);
                proof {
                    assert forall|x: usize| #[trigger] self.has(x) == on_entry.has(x) by {
                        assert(before.has(x) == on_entry.has(x));
                        if x != i && x < before.size() {
                            assert(self.instructions@[x as int] == before.instructions@[x as int]);
                        }
                    }
                    assert forall|x: usize| #[trigger] on_entry.has(x) && x < i + 1 implies self.ins(x) == redirected(on_entry.ins(x), kind as int, mapping@) by {
                        if x != i {
                            assert(before.has(x));
                            assert(self.instructions@[x as int] == before.instructions@[x as int]);
                        }
                    }
                    assert forall|x: usize| #[trigger] on_entry.has(x) && x >= i + 1 implies self.ins(x) == on_entry.ins(x) by {
                        assert(before.has(x));
                        assert(self.instructions@[x as int] == before.instructions@[x as int]);
                    }
                }
            } else {
                proof {
                    assert forall|x: usize| #[trigger] on_entry.has(x) && x < i + 1 implies self.ins(x) == redirected(on_entry.ins(x), kind as int, mapping@) by {
                        if x == i {
                            assert(self.has(i) == on_entry.has(i));
                        }
                    }
                }
            }
            i += 1;
        }
    }

    /// Numbers the series in the order in which a walk of the instructions
    /// first meets them, dropping those that no instruction refers to.
    fn sort_series(&mut self)
        requires
            old(self).wf(),
        ensures
            final(self).wf(),
            final(self).start == old(self).start,
            final(self).size() == old(self).size(),
            final(self).debug_symbols == old(self).debug_symbols,
            final(self).labels == old(self).labels,
            final(self).expecteds == old(self).expecteds,
            forall|i: usize| #[trigger] final(self).has(i) == old(self).has(i),
            forall|k: usize| k < final(self).series@.len() ==> #[trigger] final(self).series.has(k),
            exists|m: Seq<usize>| #[trigger] renumbered(old(self), final(self), 0, m),
    {
        let ghost on_entry = *self;
        let count = self.series.next_index();
        let order = self.resource_order(0, count);
        proof {
            assert forall|j: int| 0 <= j < order@.len() implies self.series.has(#[trigger] order@[j]) by {
                assert(self.referenced(0, order@[j]));
                let i = choose|i: usize| #[trigger] self.has(i) && refers(self.ins(i), 0, order@[j]);
            }
        }
        let mapping = renumber(&mut self.series, &order);
        let ghost moved = *self;
        proof {
            assert forall|i: usize, r: usize| #[trigger] moved.has(i) && #[trigger] refers(moved.ins(i), 0, r) implies r < mapping@.len() by {
                assert(on_entry.has(i));
                let j = choose|j: int| 0 <= j < order@.len() && order@[j] == r;
            }
        }
        self.renumber_references(0, &mapping);
        proof {
            assert forall|r: usize| #[trigger] on_entry.referenced(0, r) implies moved_to(&on_entry, self, 0, r, mapping@[r as int]) by {
                let i = choose|i: usize| #[trigger] on_entry.has(i) && refers(on_entry.ins(i), 0, r);
                let j = choose|j: int| 0 <= j < order@.len() && order@[j] == r;
                assert(mapping@[order@[j] as int] == j);
            }
            assert forall|a: usize, b: usize| #[trigger] on_entry.referenced(0, a) && #[trigger] on_entry.referenced(0, b) && a != b
                implies mapping@[a as int] != mapping@[b as int] by {
                let ia = choose|i: usize| #[trigger] on_entry.has(i) && refers(on_entry.ins(i), 0, a);
                let ib = choose|i: usize| #[trigger] on_entry.has(i) && refers(on_entry.ins(i), 0, b);
                let ja = choose|j: int| 0 <= j < order@.len() && order@[j] == a;
                let jb = choose|j: int| 0 <= j < order@.len() && order@[j] == b;
                assert(mapping@[order@[ja] as int] == ja);
                assert(mapping@[order@[jb] as int] == jb);
            }
            assert(self.has(self.start.0)) by {
                assert(on_entry.has(on_entry.start.0));
            }
            assert forall|j: usize| self.has(j) implies #[trigger] self.closed_at(j) by {
                assert(on_entry.has(j));
                assert(on_entry.closed_at(j));
                assert(self.ins(j).succs() == on_entry.ins(j).succs());
            }
            assert forall|j: usize| #[trigger] self.has(j) implies match self.ins(j) {
                Instruction::Series(s) => self.series.has(s.0),
                _ => true,
            } by {
                assert(on_entry.has(j));
                if let Instruction::Series(s) = on_entry.ins(j) {
                    assert(on_entry.series.has(s.0));
                    assert(refers(on_entry.ins(j), 0, s.0));
                    assert(on_entry.referenced(0, s.0));
                }
            }
            assert forall|j: usize| #[trigger] self.has(j) implies match self.ins(j) {
                Instruction::Label(_, l) => self.labels.has(l.0),
                _ => true,
            } by {
                assert(on_entry.has(j));
                if let Instruction::Label(_, l) = on_entry.ins(j) {
                    assert(on_entry.labels.has(l.0));
                    assert(refers(on_entry.ins(j), 1, l.0));
                    assert(on_entry.referenced(1, l.0));
                }
            }
            assert forall|j: usize| #[trigger] self.has(j) implies match self.ins(j) {
                Instruction::Error(_, e) => self.expecteds.has(e.0),
                _ => true,
            } by {
                assert(on_entry.has(j));
                if let Instruction::Error(_, e) = on_entry.ins(j) {
                    assert(on_entry.expecteds.has(e.0));
                    assert(refers(on_entry.ins(j), 2, e.0));
                    assert(on_entry.referenced(2, e.0));
                }
            }
            assert forall|j: usize| #[trigger] self.has(j) implies self.debug_symbols.has(j) by {
                assert(on_entry.has(j));
            }
            assert forall|i: usize| #[trigger] on_entry.has(i) implies self.ins(i) == redirected(on_entry.ins(i), 0, mapping@) by {
                assert(moved.has(i));
            }
            assert(renumbered(&on_entry, self, 0, mapping@));
        }
    }

    /// Numbers the labels in the order in which a walk of the instructions
    /// first meets them, dropping those that no instruction refers to.
    fn sort_labels(&mut self)
        requires
            old(self).wf(),
        ensures
            final(self).wf(),
            final(self).start == old(self).start,
            final(self).size() == old(self).size(),
            final(self).debug_symbols == old(self).debug_symbols,
            final(self).series == old(self).series,
            final(self).expecteds == old(self).expecteds,
            forall|i: usize| #[trigger] final(self).has(i) == old(self).has(i),
            forall|k: usize| k < final(self).labels@.len() ==> #[trigger] final(self).labels.has(k),
            exists|m: Seq<usize>| #[trigger] renumbered(old(self), final(self), 1, m),
    {
        let ghost on_entry = *self;
        let count = self.labels.next_index();
        let order = self.resource_order(1, count);
        proof {
            assert forall|j: int| 0 <= j < order@.len() implies self.labels.has(#[trigger] order@[j]) by {
                assert(self.referenced(1, order@[j]));
                let i = choose|i: usize| #[trigger] self.has(i) && refers(self.ins(i), 1, order@[j]);
            }
        }
        let mapping = renumber(&mut self.labels, &order);
        let ghost moved = *self;
        proof {
            assert forall|i: usize, r: usize| #[trigger] moved.has(i) && #[trigger] refers(moved.ins(i), 1, r) implies r < mapping@.len() by {
                assert(on_entry.has(i));
                let j = choose|j: int| 0 <= j < order@.len() && order@[j] == r;
            }
        }
        self.renumber_references(1, &mapping);
        proof {
            assert forall|r: usize| #[trigger] on_entry.referenced(1, r) implies moved_to(&on_entry, self, 1, r, mapping@[r as int]) by {
                let i = choose|i: usize| #[trigger] on_entry.has(i) && refers(on_entry.ins(i), 1, r);
                let j = choose|j: int| 0 <= j < order@.len() && order@[j] == r;
                assert(mapping@[order@[j] as int] == j);
            }
            assert forall|a: usize, b: usize| #[trigger] on_entry.referenced(1, a) && #[trigger] on_entry.referenced(1, b) && a != b
                implies mapping@[a as int] != mapping@[b as int] by {
                let ia = choose|i: usize| #[trigger] on_entry.has(i) && refers(on_entry.ins(i), 1, a);
                let ib = choose|i: usize| #[trigger] on_entry.has(i) && refers(on_entry.ins(i), 1, b);
                let ja = choose|j: int| 0 <= j < order@.len() && order@[j] == a;
                let jb = choose|j: int| 0 <= j < order@.len() && order@[j] == b;
                assert(mapping@[order@[ja] as int] == ja);
                assert(mapping@[order@[jb] as int] == jb);
            }
            assert(self.has(self.start.0)) by {
                assert(on_entry.has(on_entry.start.0));
            }
            assert forall|j: usize| self.has(j) implies #[trigger] self.closed_at(j) by {
                assert(on_entry.has(j));
                assert(on_entry.closed_at(j));
                assert(self.ins(j).succs() == on_entry.ins(j).succs());
            }
            assert forall|j: usize| #[trigger] self.has(j) implies match self.ins(j) {
                Instruction::Series(s) => self.series.has(s.0),
                _ => true,
            } by {
                assert(on_entry.has(j));
                if let Instruction::Series(s) = on_entry.ins(j) {
                    assert(on_entry.series.has(s.0));
                    assert(refers(on_entry.ins(j), 0, s.0));
                    assert(on_entry.referenced(0, s.0));
                }
            }
            assert forall|j: usize| #[trigger] self.has(j) implies match self.ins(j) {
                Instruction::Label(_, l) => self.labels.has(l.0),
                _ => true,
            } by {
                assert(on_entry.has(j));
                if let Instruction::Label(_, l) = on_entry.ins(j) {
                    assert(on_entry.labels.has(l.0));
                    assert(refers(on_entry.ins(j), 1, l.0));
                    assert(on_entry.referenced(1, l.0));
                }
            }
            assert forall|j: usize| #[trigger] self.has(j) implies match self.ins(j) {
                Instruction::Error(_, e) => self.expecteds.has(e.0),
                _ => true,
            } by {
                assert(on_entry.has(j));
                if let Instruction::Error(_, e) = on_entry.ins(j) {
                    assert(on_entry.expecteds.has(e.0));
                    assert(refers(on_entry.ins(j), 2, e.0));
                    assert(on_entry.referenced(2, e.0));
                }
            }
            assert forall|j: usize| #[trigger] self.has(j) implies self.debug_symbols.has(j) by {
                assert(on_entry.has(j));
            }
            assert forall|i: usize| #[trigger] on_entry.has(i) implies self.ins(i) == redirected(on_entry.ins(i), 1, mapping@) by {
                assert(moved.has(i));
            }
            assert(renumbered(&on_entry, self, 1, mapping@));
        }
    }

    /// Numbers the expecteds in the order in which a walk of the instructions
    /// first meets them, dropping those that no instruction refers to.
    fn sort_expecteds(&mut self)
        requires
            old(self).wf(),
        ensures
            final(self).wf(),
            final(self).start == old(self).start,
            final(self).size() == old(self).size(),
            final(self).debug_symbols == old(self).debug_symbols,
            final(self).series == old(self).series,
            final(self).labels == old(self).labels,
            forall|i: usize| #[trigger] final(self).has(i) == old(self).has(i),
            forall|k: usize| k < final(self).expecteds@.len() ==> #[trigger] final(self).expecteds.has(k),
            exists|m: Seq<usize>| #[trigger] renumbered(old(self), final(self), 2, m),
    {
        let ghost on_entry = *self;
        let count = self.expecteds.next_index();
        let order = self.resource_order(2, count);
        proof {
            assert forall|j: int| 0 <= j < order@.len() implies self.expecteds.has(#[trigger] order@[j]) by {
                assert(self.referenced(2, order@[j]));
                let i = choose|i: usize| #[trigger] self.has(i) && refers(self.ins(i), 2, order@[j]);
            }
        }
        let mapping = renumber(&mut self.expecteds, &order);
        let ghost moved = *self;
        proof {
            assert forall|i: usize, r: usize| #[trigger] moved.has(i) && #[trigger] refers(moved.ins(i), 2, r) implies r < mapping@.len() by {
                assert(on_entry.has(i));
                let j = choose|j: int| 0 <= j < order@.len() && order@[j] == r;
            }
        }
        self.renumber_references(2, &mapping);
        proof {
            assert forall|r: usize| #[trigger] on_entry.referenced(2, r) implies moved_to(&on_entry, self, 2, r, mapping@[r as int]) by {
                let i = choose|i: usize| #[trigger] on_entry.has(i) && refers(on_entry.ins(i), 2, r);
                let j = choose|j: int| 0 <= j < order@.len() && order@[j] == r;
                assert(mapping@[order@[j] as int] == j);
            }
            assert forall|a: usize, b: usize| #[trigger] on_entry.referenced(2, a) && #[trigger] on_entry.referenced(2, b) && a != b
                implies mapping@[a as int] != mapping@[b as int] by {
                let ia = choose|i: usize| #[trigger] on_entry.has(i) && refers(on_entry.ins(i), 2, a);
                let ib = choose|i: usize| #[trigger] on_entry.has(i) && refers(on_entry.ins(i), 2, b);
                let ja = choose|j: int| 0 <= j < order@.len() && order@[j] == a;
                let jb = choose|j: int| 0 <= j < order@.len() && order@[j] == b;
                assert(mapping@[order@[ja] as int] == ja);
                assert(mapping@[order@[jb] as int] == jb);
            }
            assert(self.has(self.start.0)) by {
                assert(on_entry.has(on_entry.start.0));
            }
            assert forall|j: usize| self.has(j) implies #[trigger] self.closed_at(j) by {
                assert(on_entry.has(j));
                assert(on_entry.closed_at(j));
                assert(self.ins(j).succs() == on_entry.ins(j).succs());
            }
            assert forall|j: usize| #[trigger] self.has(j) implies match self.ins(j) {
                Instruction::Series(s) => self.series.has(s.0),
                _ => true,
            } by {
                assert(on_entry.has(j));
                if let Instruction::Series(s) = on_entry.ins(j) {
                    assert(on_entry.series.has(s.0));
                    assert(refers(on_entry.ins(j), 0, s.0));
                    assert(on_entry.referenced(0, s.0));
                }
            }
            assert forall|j: usize| #[trigger] self.has(j) implies match self.ins(j) {
                Instruction::Label(_, l) => self.labels.has(l.0),
                _ => true,
            } by {
                assert(on_entry.has(j));
                if let Instruction::Label(_, l) = on_entry.ins(j) {
                    assert(on_entry.labels.has(l.0));
                    assert(refers(on_entry.ins(j), 1, l.0));
                    assert(on_entry.referenced(1, l.0));
                }
            }
            assert forall|j: usize| #[trigger] self.has(j) implies match self.ins(j) {
                Instruction::Error(_, e) => self.expecteds.has(e.0),
                _ => true,
            } by {
                assert(on_entry.has(j));
                if let Instruction::Error(_, e) = on_entry.ins(j) {
                    assert(on_entry.expecteds.has(e.0));
                    assert(refers(on_entry.ins(j), 2, e.0));
                    assert(on_entry.referenced(2, e.0));
                }
            }
            assert forall|j: usize| #[trigger] self.has(j) implies self.debug_symbols.has(j) by {
                assert(on_entry.has(j));
            }
            assert forall|i: usize| #[trigger] on_entry.has(i) implies self.ins(i) == redirected(on_entry.ins(i), 2, mapping@) by {
                assert(moved.has(i));
            }
            assert(renumbered(&on_entry, self, 2, mapping@));
        }
    }
}

} // verus!
