use crate::compiler::instruction::{Instruction, InstructionId};
use crate::compiler::transform::normalize::{lemma_ok_of_wf};
use crate::compiler::Parser;
use crate::runtime::work::{CACHE_WORK, CHOICE_WORK, LABEL_WORK, MARK_ERROR_WORK, MAX_UNCACHED_WORK, NOT_AHEAD_WORK, SEQ_WORK, SERIES_WORK};
use vstd::prelude::*;

verus! {

/// `a + b`, or `u32::MAX` where that is larger.
pub open spec fn saturating(a: u32, b: u32) -> u32 {
    if a + b > u32::MAX { u32::MAX } else { (a + b) as u32 }
}

fn saturating_add(a: u32, b: u32) -> (sum: u32)
    ensures
        sum == saturating(a, b),
{
    if a > u32::MAX - b { u32::MAX } else { a + b }
}

/// The work that an instruction takes itself.
pub open spec fn inherent_work(instruction: Instruction) -> u32 {
    match instruction {
        Instruction::Sequence(_, _) => SEQ_WORK,
        Instruction::Choice(_, _) | Instruction::FirstChoice(_, _) => CHOICE_WORK,
        Instruction::NotAhead(_) => NOT_AHEAD_WORK,
        Instruction::Delegate(_) => 0,
        Instruction::Cache(_, _) => CACHE_WORK,
        Instruction::Error(_, _) => MARK_ERROR_WORK,
        Instruction::Label(_, _) => LABEL_WORK,
        Instruction::Series(_) => SERIES_WORK,
    }
}

fn inherent_complexity(instruction: Instruction) -> (work: u32)
    ensures
        work == inherent_work(instruction),
{
    match instruction {
        Instruction::Sequence(_, _) => SEQ_WORK,
        Instruction::Choice(_, _) | Instruction::FirstChoice(_, _) => CHOICE_WORK,
        Instruction::NotAhead(_) => NOT_AHEAD_WORK,
        Instruction::Delegate(_) => 0,
        Instruction::Cache(_, _) => CACHE_WORK,
        Instruction::Error(_, _) => MARK_ERROR_WORK,
        Instruction::Label(_, _) => LABEL_WORK,
        Instruction::Series(_) => SERIES_WORK,
    }
}

/// The number of flags of `visited` that are off.
pub open spec fn unvisited(visited: Seq<bool>) -> nat
    decreases visited.len(),
{
    if visited.len() == 0 {
        0
    } else {
        unvisited(visited.drop_last()) + if visited.last() { 0nat } else { 1nat }
    }
}

pub proof fn lemma_unvisited_mark(visited: Seq<bool>, i: int)
    requires
        0 <= i < visited.len(),
        !visited[i],
    ensures
        unvisited(visited.update(i, true)) + 1 == unvisited(visited),
    decreases visited.len(),
{
    let u = visited.update(i, true);
    if i == visited.len() - 1 {
        assert(u.drop_last() == visited.drop_last());
    } else {
        lemma_unvisited_mark(visited.drop_last(), i);
        assert(u.drop_last() == visited.drop_last().update(i, true));
    }
}

impl Parser {
    /// The work that instruction `id` takes, counting each instruction as
    /// often as a path from `id` passes through it; `None` where such a
    /// path comes back to an instruction of `visited` or to itself, that
    /// is, where the work is unbounded.
    pub(crate) open spec fn work_of(&self, id: usize, visited: Seq<bool>) -> Option<u32>
        decreases unvisited(visited),
    {
        if id >= visited.len() || visited[id as int] || !self.has(id) {
            None
        } else {
            let marked = visited.update(id as int, true);
            proof {
                lemma_unvisited_mark(visited, id as int);
            }
            let inherent = inherent_work(self.ins(id));
            match self.ins(id) {
                Instruction::Sequence(a, b) | Instruction::Choice(a, b) | Instruction::FirstChoice(a, b) => {
                    match self.work_of(a.0, marked) {
                        Some(x) => match self.work_of(b.0, marked) {
                            Some(y) => Some(saturating(saturating(x, y), inherent)),
                            None => None,
                        },
                        None => None,
                    }
                },
                Instruction::NotAhead(t) | Instruction::Error(t, _) | Instruction::Label(t, _) | Instruction::Delegate(t) => {
                    match self.work_of(t.0, marked) {
                        Some(x) => Some(saturating(x, inherent)),
                        None => None,
                    }
                },
                Instruction::Cache(_, _) | Instruction::Series(_) => Some(inherent),
            }
        }
    }

    /// The work that instruction `id` takes; see [`Parser::work_of`].
    fn work(&self, id: InstructionId, visited: &mut Vec<bool>) -> (work: Option<u32>)
        requires
            self.wf(),
            old(visited)@.len() == self.size(),
        ensures
            work == self.work_of(id.0, old(visited)@),
            final(visited)@ == old(visited)@,
        decreases unvisited(old(visited)@),
    {
        if id.0 >= visited.len() || visited[id.0] || !self.instructions.contains(id) {
            return None;
        }
        proof {
            lemma_unvisited_mark(visited@, id.0 as int);
        }
        let ghost start = visited@;
        visited.set(id.0, true);
        let instruction = self.instruction(id);
        let inherent = inherent_complexity(instruction);
        proof {
            assert(self.closed_at(id.0));
        }
        let result = match instruction {
            Instruction::Sequence(a, b) | Instruction::Choice(a, b) | Instruction::FirstChoice(a, b) => {
                match self.work(a, visited) {
                    Some(x) => match self.work(b, visited) {
                        Some(y) => Some(saturating_add(saturating_add(x, y), inherent)),
                        None => None,
                    },
                    None => None,
                }
            },
            Instruction::NotAhead(t) | Instruction::Error(t, _) | Instruction::Label(t, _) | Instruction::Delegate(t) => {
                match self.work(t, visited) {
                    Some(x) => Some(saturating_add(x, inherent)),
                    None => None,
                }
            },
            Instruction::Cache(_, _) | Instruction::Series(_) => Some(inherent),
        };
        visited.set(id.0, false);
        assert(visited@ =~= start);
        result
    }
}

pub proof fn lemma_with_succs_same(x: Instruction)
    ensures
        x.with_succs(x.succs()) == x,
{
}

pub proof fn lemma_with_succs_compose(x: Instruction, a: Seq<InstructionId>, b: Seq<InstructionId>)
    requires
        a.len() == x.succs().len(),
        b.len() == x.succs().len(),
    ensures
        x.with_succs(a).with_succs(b) == x.with_succs(b),
        x.with_succs(b).succs() =~= b,
{
}

/// The number of times that `j` occurs in `s`, a sequence of at most two.
pub open spec fn occurrences(s: Seq<InstructionId>, j: usize) -> nat {
    (if s.len() > 0 && s[0].0 == j { 1nat } else { 0nat }) + (if s.len() > 1 && s[1].0 == j { 1nat } else { 0nat })
}

/// `ins` with each reference to instruction `from` sent to `to` instead.
pub open spec fn redirected_to(ins: Instruction, from: usize, to: usize) -> Instruction {
    ins.with_succs(ins.succs().map_values(|s: InstructionId| if s.0 == from { InstructionId(to) } else { s }))
}

/// `n` flags, none of them set.
pub open spec fn no_flags(n: nat) -> Seq<bool> {
    Seq::new(n, |i: int| false)
}

/// Instruction `id` of `a` gets a cache in front of it: it is no cache
/// itself, at least two references in `p0`, the parser the insertion
/// started from, lead to it, its work in `a` is unbounded or above
/// [`MAX_UNCACHED_WORK`], and `a` has room for one more instruction.
pub(crate) open spec fn needs_cache(p0: &Parser, a: &Parser, id: usize) -> bool {
    &&& !(a.ins(id) is Cache)
    &&& in_degree(p0, id, p0.size() as int) >= 2
    &&& !(a.work_of(id, no_flags(a.size())) matches Some(w) && w <= MAX_UNCACHED_WORK)
    &&& a.size() < usize::MAX - 1
}

/// `b` is `a` after handling instruction `id`: where it needs a cache, a
/// cache instruction of `id` is added as the last instruction and every
/// instruction that referred to `id` in `p0` refers to the cache instead;
/// otherwise nothing changes.
pub(crate) open spec fn cache_step(p0: &Parser, a: &Parser, b: &Parser, id: usize) -> bool {
    if needs_cache(p0, a, id) {
        &&& b.start == a.start
        &&& b.size() == a.size() + 1
        &&& forall|q: usize| #[trigger] b.has(q) == (a.has(q) || q == a.size())
        &&& b.ins(a.size() as usize) == Instruction::Cache(InstructionId(id), None)
        &&& forall|q: usize| #[trigger] a.has(q) ==> b.ins(q) == if p0.has(q) && occurrences(p0.ins(q).succs(), id) > 0 {
            redirected_to(a.ins(q), id, a.size() as usize)
        } else {
            a.ins(q)
        }
    } else {
        *b == *a
    }
}

/// `states` are the parsers from `p0` on, after handling the instructions
/// of `order` one by one from the last to the first.
pub(crate) open spec fn cache_chain(p0: &Parser, order: Seq<InstructionId>, states: Seq<Parser>) -> bool {
    &&& states.len() == order.len() + 1
    &&& states[0] == *p0
    &&& forall|t: int| 0 <= t < order.len() ==> #[trigger] cache_step(p0, &states[t], &states[t + 1], order[order.len() - 1 - t].0)
}

/// An instruction whose successors are its own, each reference to
/// `from` sent to `to`, is `ins` redirected.
pub proof fn lemma_redirect_once(x: Instruction, mapped: Seq<InstructionId>, from: usize, to: usize)
    requires
        mapped.len() == x.succs().len(),
        forall|k: int| 0 <= k < mapped.len() ==> #[trigger] mapped[k] == if x.succs()[k].0 == from { InstructionId(to) } else { x.succs()[k] },
    ensures
        x.with_succs(mapped) == redirected_to(x, from, to),
{
    assert(mapped =~= x.succs().map_values(|s: InstructionId| if s.0 == from { InstructionId(to) } else { s }));
}

/// Redirecting twice redirects once.
pub proof fn lemma_redirect_twice(x: Instruction, from: usize, to: usize)
    requires
        from != to,
    ensures
        redirected_to(redirected_to(x, from, to), from, to) == redirected_to(x, from, to),
        redirected_to(x, from, to).succs().len() == x.succs().len(),
{
    let f = |s: InstructionId| if s.0 == from { InstructionId(to) } else { s };
    let a = x.succs().map_values(f);
    lemma_with_succs_compose(x, a, a);
    let y = x.with_succs(a);
    assert(y.succs() =~= a);
    assert(y.succs().map_values(f) =~= a);
    lemma_with_succs_compose(x, a, a);
}

/// How often the first `k` of `s` refer to instruction `j`.
pub open spec fn occurrences_upto(s: Seq<InstructionId>, j: usize, k: int) -> nat {
    (if k > 0 && s.len() > 0 && s[0].0 == j { 1nat } else { 0nat }) + (if k > 1 && s.len() > 1 && s[1].0 == j { 1nat } else { 0nat })
}

/// How often the instructions of `p` below `upto` refer to instruction
/// `j`: its number of predecessors, each counted once per reference.
pub open spec fn in_degree(p: &Parser, j: usize, upto: int) -> nat
    decreases upto,
{
    if upto <= 0 {
        0
    } else {
        in_degree(p, j, upto - 1) + if p.has((upto - 1) as usize) { occurrences(p.ins((upto - 1) as usize).succs(), j) } else { 0nat }
    }
}

/// Instruction `new` of `after` is instruction `old` of `before` with some
/// successors replaced by cache instructions in front of them.
pub(crate) open spec fn up_to_caching(before: &Parser, after: &Parser, old: Instruction, new: Instruction) -> bool {
    &&& new.succs().len() == old.succs().len()
    &&& new == old.with_succs(new.succs())
    &&& forall|k: int| 0 <= k < new.succs().len() ==> {
        let n = #[trigger] new.succs()[k];
        ||| n == old.succs()[k]
        ||| !before.has(n.0) && after.has(n.0) && after.ins(n.0) == Instruction::Cache(old.succs()[k], None)
    }
}

impl Parser {
    /// For each instruction, the instructions that refer to it, each as
    /// often as it refers to it.
    fn compute_duplicated_predecessors(&self) -> (preds: Vec<Vec<InstructionId>>)
        requires
            self.wf(),
        ensures
            preds@.len() == self.size(),
            forall|j: int, m: int| 0 <= j < preds@.len() && 0 <= m < preds@[j]@.len() ==> {
                let q = (#[trigger] preds@[j]@[m]).0;
                self.has(q) && occurrences(self.ins(q).succs(), j as usize) > 0
            },
            forall|j: int| 0 <= j < preds@.len() ==> (#[trigger] preds@[j])@.len() == in_degree(self, j as usize, self.size() as int),
            forall|j: usize, q: usize| j < preds@.len() && #[trigger] self.has(q) && occurrences(self.ins(q).succs(), j) > 0
                ==> #[trigger] preds@[j as int]@.contains(InstructionId(q)),
    {
        let n = self.instructions.next_index();
        let mut preds: Vec<Vec<InstructionId>> = Vec::new();
        while preds.len() < n
            invariant
                preds@.len() <= n,
                forall|j: int| 0 <= j < preds@.len() ==> (#[trigger] preds@[j])@.len() == 0,
            decreases n - preds@.len(),
        {
            preds.push(Vec::new());
        }
        let mut i: usize = 0;
        while i < n
            invariant
                n == self.size(),
                i <= n,
                preds@.len() == n,
                self.wf(),
                forall|j: int, m: int| 0 <= j < preds@.len() && 0 <= m < preds@[j]@.len() ==> {
                    let q = (#[trigger] preds@[j]@[m]).0;
                    self.has(q) && occurrences(self.ins(q).succs(), j as usize) > 0
                },
                forall|j: int| 0 <= j < preds@.len() ==> (#[trigger] preds@[j])@.len() == in_degree(self, j as usize, i as int),
                forall|j: usize, q: usize| j < preds@.len() && q < i && #[trigger] self.has(q) && occurrences(self.ins(q).succs(), j) > 0
                    ==> #[trigger] preds@[j as int]@.contains(InstructionId(q)),
            decreases n - i,
        {
            if self.instructions.contains(InstructionId(i)) {
                let successors = self.instruction(InstructionId(i)).successors();
                proof {
                    assert(self.closed_at(i));
                }
                let mut k: usize = 0;
                while k < successors.len()
                    invariant
                        n == self.size(),
                        preds@.len() == n,
                        self.has(i),
                        self.wf(),
                        successors@ == self.ins(i).succs(),
                        forall|k2: int| 0 <= k2 < successors@.len() ==> self.has(#[trigger] successors@[k2].0),
                        forall|j: int, m: int| 0 <= j < preds@.len() && 0 <= m < preds@[j]@.len() ==> {
                            let q = (#[trigger] preds@[j]@[m]).0;
                            self.has(q) && occurrences(self.ins(q).succs(), j as usize) > 0
                        },
                        k <= successors@.len(),
                        i < n,
                        forall|j: int| 0 <= j < preds@.len() ==> (#[trigger] preds@[j])@.len()
                            == in_degree(self, j as usize, i as int) + occurrences_upto(successors@, j as usize, k as int),
                        forall|j: usize, q: usize| j < preds@.len() && q < i && #[trigger] self.has(q) && occurrences(self.ins(q).succs(), j) > 0
                            ==> #[trigger] preds@[j as int]@.contains(InstructionId(q)),
                        forall|j: usize| j < preds@.len() && occurrences_upto(successors@, j, k as int) > 0
                            ==> #[trigger] preds@[j as int]@.contains(InstructionId(i)),
                    decreases successors@.len() - k,
                {
                    let s = successors[k].0;
                    let ghost before = preds@;
                    preds.push(Vec::new());
                    let mut list = preds.swap_remove(s);
                    list.push(InstructionId(i));
                    preds.set(s, list);
                    proof {
                        assert forall|j: int, m: int| 0 <= j < preds@.len() && 0 <= m < preds@[j]@.len() implies {
                            let q = (#[trigger] preds@[j]@[m]).0;
                            self.has(q) && occurrences(self.ins(q).succs(), j as usize) > 0
                        } by {
                            if j != s {
                                assert(preds@[j] == before[j]);
                            } else if m < before[j]@.len() {
                                assert(preds@[j]@[m] == before[j]@[m]);
                            } else {
                                assert(self.ins(i).succs()[k as int].0 == s);
                            }
                        }
                        assert forall|j: int| 0 <= j < preds@.len() implies (#[trigger] preds@[j])@.len()
                            == in_degree(self, j as usize, i as int) + occurrences_upto(successors@, j as usize, k + 1) by {
                            if j != s {
                                assert(preds@[j] == before[j]);
                            }
                        }
                        assert forall|j: usize, q: usize| j < preds@.len() && q < i + 1 && #[trigger] self.has(q)
                            && (if q < i { occurrences(self.ins(q).succs(), j) > 0 } else { occurrences_upto(successors@, j, k + 1) > 0 })
                            implies #[trigger] preds@[j as int]@.contains(InstructionId(q)) by {
                            if j != s {
                                assert(preds@[j as int] == before[j as int]);
                                if q < i {
                                    assert(before[j as int]@.contains(InstructionId(q)));
                                } else {
                                    assert(occurrences_upto(successors@, j, k as int) > 0);
                                    assert(before[j as int]@.contains(InstructionId(i)));
                                }
                            } else {
                                assert(preds@[j as int]@ == before[j as int]@.push(InstructionId(i)));
                                if q < i {
                                    assert(before[j as int]@.contains(InstructionId(q)));
                                    let x = choose|x: int| 0 <= x < before[j as int]@.len() && before[j as int]@[x] == InstructionId(q);
                                    assert(preds@[j as int]@[x] == InstructionId(q));
                                } else {
                                    assert(preds@[j as int]@[before[j as int]@.len() as int] == InstructionId(i));
                                }
                            }
                        }
                    }
                    k += 1;
                }
                proof {
                    assert forall|j: usize, q: usize| j < preds@.len() && q < i + 1 && #[trigger] self.has(q) && occurrences(self.ins(q).succs(), j) > 0
                        implies #[trigger] preds@[j as int]@.contains(InstructionId(q)) by {
                        if q == i {
                            assert(occurrences_upto(successors@, j, k as int) == occurrences(successors@, j));
                        }
                    }
                    assert(in_degree(self, 0, i + 1) == in_degree(self, 0, i as int) + occurrences(self.ins(i).succs(), 0));
                    assert forall|j: int| 0 <= j < preds@.len() implies (#[trigger] preds@[j])@.len() == in_degree(self, j as usize, i + 1) by {
                        assert(occurrences_upto(successors@, j as usize, k as int) == occurrences(successors@, j as usize));
                    }
                }
            } else {
                proof {
                    assert forall|j: int| 0 <= j < preds@.len() implies (#[trigger] preds@[j])@.len() == in_degree(self, j as usize, i + 1) by {}
                    assert forall|j: usize, q: usize| j < preds@.len() && q < i + 1 && #[trigger] self.has(q) && occurrences(self.ins(q).succs(), j) > 0
                        implies #[trigger] preds@[j as int]@.contains(InstructionId(q)) by {
                        assert(q != i);
                    }
                }
            }
            i += 1;
        }
        preds
    }

    /// Puts a cache instruction in front of each instruction that more than
    /// one instruction refers to and whose work is unbounded or above
    /// [`MAX_UNCACHED_WORK`], from the last instruction of a walk to the
    /// first; the references to it then go to the cache instruction. The
    /// start is left as it is.
    pub(crate) fn insert_cache_points(&mut self)
        requires
            old(self).wf(),
        ensures
            final(self).wf(),
            final(self).start == old(self).start,
            forall|i: usize| #[trigger] old(self).has(i) ==> final(self).has(i)
                && up_to_caching(old(self), final(self), old(self).ins(i), final(self).ins(i)),
            forall|i: usize| #[trigger] final(self).has(i) && !old(self).has(i) ==> (final(self).ins(i) matches Instruction::Cache(t, None) && old(self).has(t.0)),
            exists|order: Seq<InstructionId>, states: Seq<Parser>| #[trigger] cache_chain(old(self), order, states)
                && states.last() == *final(self)
                && (forall|i: usize| old(self).reachable(i) <==> exists|k: int| 0 <= k < order.len() && #[trigger] order[k].0 == i),
    {
        let predecessors = self.compute_duplicated_predecessors();
        let order = self.walk();
        let ghost on_entry = *self;
        let ghost mut states: Seq<Parser> = seq![*self];
        proof {
            assert forall|i: usize| #[trigger] on_entry.has(i) implies up_to_caching(&on_entry, self, on_entry.ins(i), self.ins(i)) by {
                lemma_with_succs_same(on_entry.ins(i));
            }
        }
        let mut index = order.len();
        while index > 0
            invariant
                index <= order@.len(),
                self.wf(),
                self.start == on_entry.start,
                predecessors@.len() == on_entry.size(),
                forall|j: int, m: int| 0 <= j < predecessors@.len() && 0 <= m < predecessors@[j]@.len() ==>
                    on_entry.has((#[trigger] predecessors@[j]@[m]).0),
                forall|k: int| 0 <= k < order@.len() ==> on_entry.reachable(#[trigger] order@[k].0),
                forall|i: usize| #[trigger] on_entry.has(i) ==> self.has(i)
                    && up_to_caching(&on_entry, self, on_entry.ins(i), self.ins(i)),
                forall|i: usize| #[trigger] self.has(i) && !on_entry.has(i) ==> (self.ins(i) matches Instruction::Cache(t, None) && on_entry.has(t.0)),
                forall|j: int| 0 <= j < predecessors@.len() ==> (#[trigger] predecessors@[j])@.len() == in_degree(&on_entry, j as usize, on_entry.size() as int),
                forall|j: usize, q: usize| j < predecessors@.len() && #[trigger] on_entry.has(q) && occurrences(on_entry.ins(q).succs(), j) > 0
                    ==> #[trigger] predecessors@[j as int]@.contains(InstructionId(q)),
                forall|j: int, m: int| 0 <= j < predecessors@.len() && 0 <= m < predecessors@[j]@.len() ==>
                    occurrences(on_entry.ins((#[trigger] predecessors@[j]@[m]).0).succs(), j as usize) > 0,
                states.len() == order@.len() - index + 1,
                states[0] == on_entry,
                states.last() == *self,
                forall|t: int| 0 <= t < states.len() - 1 ==> #[trigger] cache_step(&on_entry, &states[t], &states[t + 1], order@[order@.len() - 1 - t].0),
            decreases index,
        {
            index -= 1;
            let id = order[index];
            let ghost a = *self;
            let ghost states0 = states;
            proof {
                assert(on_entry.reachable(order@[index as int].0));
                assert(self.has(id.0));
                assert(order@[order@.len() - 1 - (states0.len() - 1)] == id);
            }
            let instruction = self.instruction(id);
            let is_cache = match instruction { Instruction::Cache(_, _) => true, _ => false };
            if is_cache || predecessors[id.0].len() < 2 {
                proof {
                    assert(!needs_cache(&on_entry, &a, id.0));
                    states = states.push(*self);
                    assert forall|t: int| 0 <= t < states.len() - 1 implies #[trigger] cache_step(&on_entry, &states[t], &states[t + 1], order@[order@.len() - 1 - t].0) by {
                        if t < states0.len() - 1 {
                            assert(states[t] == states0[t] && states[t + 1] == states0[t + 1]);
                        }
                    }
                }
                continue;
            }
            let n = self.instructions.next_index();
            let mut visited: Vec<bool> = Vec::new();
            while visited.len() < n
                invariant
                    visited@.len() <= n,
                    forall|x: int| 0 <= x < visited@.len() ==> !#[trigger] visited@[x],
                decreases n - visited@.len(),
            {
                visited.push(false);
            }
            proof {
                assert(visited@ =~= no_flags(self.size()));
            }
            let work = self.work(id, &mut visited);
            let cheap = match work { Some(w) => w <= MAX_UNCACHED_WORK, None => false };
            if cheap || n >= usize::MAX - 1 {
                proof {
                    assert(!needs_cache(&on_entry, &a, id.0));
                    states = states.push(*self);
                    assert forall|t: int| 0 <= t < states.len() - 1 implies #[trigger] cache_step(&on_entry, &states[t], &states[t + 1], order@[order@.len() - 1 - t].0) by {
                        if t < states0.len() - 1 {
                            assert(states[t] == states0[t] && states[t + 1] == states0[t + 1]);
                        }
                    }
                }
                continue;
            }
            proof {
                assert(needs_cache(&on_entry, &a, id.0));
            }
            let ghost before = *self;
            proof {
                assert(self.instruction_ok(Instruction::Cache(id, None))) by {
                    assert(Instruction::Cache(id, None).succs()[0] == id);
                }
            }
            let new_id = self.add_instruction(Instruction::Cache(id, None), id);
            proof {
                assert forall|i: usize| #[trigger] on_entry.has(i) implies self.has(i)
                    && up_to_caching(&on_entry, self, on_entry.ins(i), self.ins(i)) by {
                    assert(before.has(i));
                    assert(up_to_caching(&on_entry, &before, on_entry.ins(i), before.ins(i)));
                    let x = self.ins(i);
                    assert forall|k: int| 0 <= k < x.succs().len() implies {
                        let nn = #[trigger] x.succs()[k];
                        ||| nn == on_entry.ins(i).succs()[k]
                        ||| !on_entry.has(nn.0) && self.has(nn.0) && self.ins(nn.0) == Instruction::Cache(on_entry.ins(i).succs()[k], None)
                    } by {
                        let nn = x.succs()[k];
                        if nn != on_entry.ins(i).succs()[k] {
                            assert(before.has(nn.0));
                        }
                    }
                }
                assert forall|i: usize| #[trigger] self.has(i) && !on_entry.has(i) implies (self.ins(i) matches Instruction::Cache(t, None) && on_entry.has(t.0)) by {
                    if i != new_id.0 {
                        assert(before.has(i));
                    }
                }
            }
            let count = predecessors[id.0].len();
            let mut m: usize = 0;
            while m < count
                invariant
                    m <= count,
                    count == predecessors@[id.0 as int]@.len(),
                    id.0 < predecessors@.len(),
                    self.wf(),
                    self.start == on_entry.start,
                    self.has(new_id.0),
                    self.ins(new_id.0) == Instruction::Cache(id, None),
                    on_entry.has(id.0),
                    !(on_entry.ins(id.0) is Cache),
                    !(self.ins(id.0) is Cache),
                    !on_entry.has(new_id.0),
                    predecessors@.len() == on_entry.size(),
                    forall|j: int, mm: int| 0 <= j < predecessors@.len() && 0 <= mm < predecessors@[j]@.len() ==>
                        on_entry.has((#[trigger] predecessors@[j]@[mm]).0),
                    forall|i: usize| #[trigger] on_entry.has(i) ==> self.has(i)
                        && up_to_caching(&on_entry, self, on_entry.ins(i), self.ins(i)),
                    forall|i: usize| #[trigger] self.has(i) && !on_entry.has(i) ==> (self.ins(i) matches Instruction::Cache(t, None) && on_entry.has(t.0)),
                    new_id.0 == before.size(),
                    new_id.0 != id.0,
                    self.size() == before.size() + 1,
                    forall|q: usize| #[trigger] self.has(q) == (before.has(q) || q == new_id.0),
                    forall|q: usize| #[trigger] before.has(q) ==> self.ins(q) == if predecessors@[id.0 as int]@.take(m as int).contains(InstructionId(q)) {
                        redirected_to(before.ins(q), id.0, new_id.0)
                    } else {
                        before.ins(q)
                    },
                decreases count - m,
            {
                let pred = predecessors[id.0][m];
                proof {
                    assert(on_entry.has(pred.0));
                    assert(self.has(pred.0));
                }
                let current = self.instruction(pred);
                let successors = current.successors();
                let mut mapped: Vec<InstructionId> = Vec::new();
                let mut k: usize = 0;
                while k < successors.len()
                    invariant
                        k <= successors@.len(),
                        successors@ == current.succs(),
                        mapped@.len() == k,
                        forall|k2: int| 0 <= k2 < k ==> #[trigger] mapped@[k2] == if successors@[k2] == id { new_id } else { successors@[k2] },
                    decreases successors@.len() - k,
                {
                    let s = successors[k];
                    mapped.push(if s == id { new_id } else { s });
                    k += 1;
                }
                let updated = current.with_successors(&mapped);
                let ghost prior = *self;
                proof {
                    lemma_redirect_once(current, mapped@, id.0, new_id.0);
                    assert(before.has(pred.0));
                    lemma_redirect_twice(before.ins(pred.0), id.0, new_id.0);
                }
                proof {
                    assert(self.closed_at(pred.0));
                    assert forall|k2: int| 0 <= k2 < updated.succs().len() implies self.has(#[trigger] updated.succs()[k2].0) by {
                        assert(self.has(current.succs()[k2].0));
                    }
                }
                self.replace_instruction(pred, updated);
                proof {
                    assert forall|i: usize| #[trigger] on_entry.has(i) implies self.has(i)
                        && up_to_caching(&on_entry, self, on_entry.ins(i), self.ins(i)) by {
                        assert(prior.has(i));
                        assert(up_to_caching(&on_entry, &prior, on_entry.ins(i), prior.ins(i)));
                        if i == pred.0 {
                            let o = on_entry.ins(i);
                            lemma_with_succs_compose(o, current.succs(), mapped@);
                            assert(current == prior.ins(i));
                            assert(updated.succs() == mapped@);
                            assert forall|k2: int| 0 <= k2 < updated.succs().len() implies {
                                let nn = #[trigger] updated.succs()[k2];
                                ||| nn == o.succs()[k2]
                                ||| !on_entry.has(nn.0) && self.has(nn.0) && self.ins(nn.0) == Instruction::Cache(o.succs()[k2], None)
                            } by {
                                let c = current.succs()[k2];
                                let pc = prior.ins(i).succs()[k2];
                                assert(pc == c);
                                assert(mapped@[k2] == if c == id { new_id } else { c });
                                if c == id {
                                    if c != o.succs()[k2] {
                                        assert(prior.has(pc.0) && prior.ins(pc.0) == Instruction::Cache(o.succs()[k2], None));
                                    } else {
                                        assert(new_id.0 != pred.0);
                                        assert(prior.has(new_id.0));
                                        assert(self.has(new_id.0));
                                        assert(self.ins(new_id.0) == prior.ins(new_id.0));
                                    }
                                } else if c != o.succs()[k2] {
                                    assert(prior.has(pc.0) && prior.ins(pc.0) == Instruction::Cache(o.succs()[k2], None));
                                    assert(c.0 != pred.0) by {
                                        if c.0 == pred.0 {
                                            assert(on_entry.has(pred.0));
                                        }
                                    }
                                    assert(self.has(c.0));
                                    assert(self.ins(c.0) == prior.ins(c.0));
                                }
                            }
                        } else {
                            let x = self.ins(i);
                            assert(self.has(i));
                            assert(x == prior.ins(i));
                            assert forall|k2: int| 0 <= k2 < x.succs().len() implies {
                                let nn = #[trigger] x.succs()[k2];
                                ||| nn == on_entry.ins(i).succs()[k2]
                                ||| !on_entry.has(nn.0) && self.has(nn.0) && self.ins(nn.0) == Instruction::Cache(on_entry.ins(i).succs()[k2], None)
                            } by {
                                let nn = x.succs()[k2];
                                let pn = prior.ins(i).succs()[k2];
                                assert(pn == nn);
                                if nn != on_entry.ins(i).succs()[k2] {
                                    assert(prior.has(pn.0) && prior.ins(pn.0) == Instruction::Cache(on_entry.ins(i).succs()[k2], None));
                                    assert(nn.0 != pred.0) by {
                                        if nn.0 == pred.0 {
                                            assert(on_entry.has(pred.0));
                                        }
                                    }
                                    assert(self.has(nn.0));
                                    assert(self.ins(nn.0) == prior.ins(nn.0));
                                }
                            }
                        }
                    }
                    assert forall|i: usize| #[trigger] self.has(i) && !on_entry.has(i) implies (self.ins(i) matches Instruction::Cache(t, None) && on_entry.has(t.0)) by {
                        assert(prior.has(i));
                    }
                    if id.0 != pred.0 {
                        assert(self.has(id.0));
                        assert(self.ins(id.0) == prior.ins(id.0));
                    }
                    assert(new_id.0 != pred.0);
                    assert(self.has(new_id.0));
                    assert(self.ins(new_id.0) == prior.ins(new_id.0));
                    let list = predecessors@[id.0 as int]@;
                    assert(list.take(m + 1) == list.take(m as int).push(pred));
                    assert forall|q: usize| #[trigger] before.has(q) implies self.ins(q) == if list.take(m + 1).contains(InstructionId(q)) {
                        redirected_to(before.ins(q), id.0, new_id.0)
                    } else {
                        before.ins(q)
                    } by {
                        if q == pred.0 {
                            assert(list.take(m + 1)[m as int] == pred);
                        } else {
                            assert(prior.has(q));
                            assert(self.ins(q) == prior.ins(q));
                            if list.take(m + 1).contains(InstructionId(q)) {
                                let x = choose|x: int| 0 <= x < list.take(m + 1).len() && #[trigger] list.take(m + 1)[x] == InstructionId(q);
                                assert(x < m);
                                assert(list.take(m as int)[x] == InstructionId(q));
                            }
                            if list.take(m as int).contains(InstructionId(q)) {
                                let x = choose|x: int| 0 <= x < list.take(m as int).len() && #[trigger] list.take(m as int)[x] == InstructionId(q);
                                assert(list.take(m + 1)[x] == InstructionId(q));
                            }
                        }
                    }
                }
                m += 1;
            }
            proof {
                let list = predecessors@[id.0 as int]@;
                assert(list.take(m as int) == list);
                assert(a == before);
                assert forall|q: usize| #[trigger] before.has(q) implies self.ins(q) == if on_entry.has(q) && occurrences(on_entry.ins(q).succs(), id.0) > 0 {
                    redirected_to(before.ins(q), id.0, before.size() as usize)
                } else {
                    before.ins(q)
                } by {
                    if list.contains(InstructionId(q)) {
                        let x = choose|x: int| 0 <= x < list.len() && #[trigger] list[x] == InstructionId(q);
                        assert(on_entry.has(list[x].0));
                        assert(occurrences(on_entry.ins(list[x].0).succs(), id.0) > 0);
                    }
                }
                assert(cache_step(&on_entry, &a, self, id.0));
                states = states.push(*self);
                assert forall|t: int| 0 <= t < states.len() - 1 implies #[trigger] cache_step(&on_entry, &states[t], &states[t + 1], order@[order@.len() - 1 - t].0) by {
                    if t < states0.len() - 1 {
                        assert(states[t] == states0[t] && states[t + 1] == states0[t + 1]);
                    }
                }
            }
        }
        proof {
            assert(cache_chain(&on_entry, order@, states));
        }
    }
}

} // verus!
