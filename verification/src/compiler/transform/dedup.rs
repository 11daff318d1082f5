use crate::compiler::expected::Expected;
use crate::compiler::reach::{adjacency_closed, lists_of};
use crate::compiler::transform::components::{below, component_members, component_roots, component_successors, falses, lists_below, postorder, has_key, succ_of};
use crate::compiler::instruction::{ExpectedId, Instruction, InstructionId, LabelId, SeriesId};
use crate::compiler::series::{ClassView, Series};
use crate::compiler::{DebugSymbol, Parser};
use crate::store::{Store, StoreKey};
use seahash::SeaHasher;
use std::hash::Hasher;
use vstd::prelude::*;
use vstd::set_lib::{lemma_int_range, set_int_range};

verus! {

/// `k` is the first slot that holds the same value as slot `j`.
pub open spec fn first_equal<V>(slots: Seq<Option<V>>, j: int, k: int) -> bool {
    &&& 0 <= k <= j < slots.len()
    &&& slots[j] is Some
    &&& slots[k] == slots[j]
    &&& forall|l: int| 0 <= l < k ==> slots[l] != slots[j]
}

/// `canon` names, for every used slot, the first slot that holds the same
/// value.
pub open spec fn canonicals<V>(slots: Seq<Option<V>>, canon: Seq<usize>) -> bool {
    &&& canon.len() == slots.len()
    &&& forall|j: int| 0 <= j < slots.len() && slots[j] is Some ==> first_equal(slots, j, #[trigger] canon[j] as int)
}

/// The series of a store, each seen as its classes.
pub open spec fn series_views(store: &Store<SeriesId, Series>) -> Seq<Option<Seq<ClassView>>> {
    Seq::new(store@.len(), |i: int| if store.has(i as usize) { Some(store.value(i as usize)@) } else { None })
}

/// The labels of a store, each seen as its characters.
pub open spec fn label_views(store: &Store<LabelId, String>) -> Seq<Option<Seq<char>>> {
    Seq::new(store@.len(), |i: int| if store.has(i as usize) { Some(store.value(i as usize)@) } else { None })
}

/// The expected sets of a store, each seen as its label and literal keys.
pub open spec fn expected_views(store: &Store<ExpectedId, Expected>) -> Seq<Option<(Seq<Seq<u8>>, Seq<Seq<u8>>)>> {
    Seq::new(store@.len(), |i: int| if store.has(i as usize) { Some(store.value(i as usize)@) } else { None })
}

/// `ins` with the series, label or expected set of kind `kind` (0, 1 or 2)
/// that it refers to replaced by its entry in `canon`.
pub open spec fn redirected(ins: Instruction, kind: int, canon: Seq<usize>) -> Instruction {
    match ins {
        Instruction::Series(s) => if kind == 0 { Instruction::Series(SeriesId(canon[s.0 as int])) } else { ins },
        Instruction::Label(t, l) => if kind == 1 { Instruction::Label(t, LabelId(canon[l.0 as int])) } else { ins },
        Instruction::Error(t, e) => if kind == 2 { Instruction::Error(t, ExpectedId(canon[e.0 as int])) } else { ins },
        _ => ins,
    }
}

/// For every series, the first series equal to it.
fn series_canonicals(store: &Store<SeriesId, Series>) -> (canon: Vec<usize>)
    ensures
        canonicals(series_views(store), canon@),
{
    let ghost views = series_views(store);
    let n = store.next_index();
    let mut canon: Vec<usize> = Vec::new();
    let mut j: usize = 0;
    while j < n
        invariant
            n == views.len(),
            views == series_views(store),
            j <= n,
            canon@.len() == j,
            forall|x: int| 0 <= x < j && views[x] is Some ==> first_equal(views, x, #[trigger] canon@[x] as int),
        decreases n - j,
    {
        let mut found = j;
        if store.contains(SeriesId(j)) {
            let mut k: usize = 0;
            while k < j
                invariant_except_break
                    found == j,
                invariant
                    views == series_views(store),
                    j < n,
                    n == views.len(),
                    k <= j,
                    views[j as int] is Some,
                    forall|l: int| 0 <= l < k ==> views[l] != views[j as int],
                ensures
                    first_equal(views, j as int, found as int),
                decreases j - k,
            {
                if store.contains(SeriesId(k)) && store.get(SeriesId(k)).equals(store.get(SeriesId(j))) {
                    found = k;
                    break;
                }
                k += 1;
            }
        }
        canon.push(found);
        j += 1;
    }
    canon
}

/// For every label, the first label equal to it.
fn label_canonicals(store: &Store<LabelId, String>) -> (canon: Vec<usize>)
    ensures
        canonicals(label_views(store), canon@),
{
    let ghost views = label_views(store);
    let n = store.next_index();
    let mut canon: Vec<usize> = Vec::new();
    let mut j: usize = 0;
    while j < n
        invariant
            n == views.len(),
            views == label_views(store),
            j <= n,
            canon@.len() == j,
            forall|x: int| 0 <= x < j && views[x] is Some ==> first_equal(views, x, #[trigger] canon@[x] as int),
        decreases n - j,
    {
        let mut found = j;
        if store.contains(LabelId(j)) {
            let mut k: usize = 0;
            while k < j
                invariant_except_break
                    found == j,
                invariant
                    views == label_views(store),
                    j < n,
                    n == views.len(),
                    k <= j,
                    views[j as int] is Some,
                    forall|l: int| 0 <= l < k ==> views[l] != views[j as int],
                ensures
                    first_equal(views, j as int, found as int),
                decreases j - k,
            {
                if store.contains(LabelId(k)) && *store.get(LabelId(k)) == *store.get(LabelId(j)) {
                    found = k;
                    break;
                }
                k += 1;
            }
        }
        canon.push(found);
        j += 1;
    }
    canon
}

/// For every expected set, the first expected set equal to it.
fn expected_canonicals(store: &Store<ExpectedId, Expected>) -> (canon: Vec<usize>)
    ensures
        canonicals(expected_views(store), canon@),
{
    let ghost views = expected_views(store);
    let n = store.next_index();
    let mut canon: Vec<usize> = Vec::new();
    let mut j: usize = 0;
    while j < n
        invariant
            n == views.len(),
            views == expected_views(store),
            j <= n,
            canon@.len() == j,
            forall|x: int| 0 <= x < j && views[x] is Some ==> first_equal(views, x, #[trigger] canon@[x] as int),
        decreases n - j,
    {
        let mut found = j;
        if store.contains(ExpectedId(j)) {
            let mut k: usize = 0;
            while k < j
                invariant_except_break
                    found == j,
                invariant
                    views == expected_views(store),
                    j < n,
                    n == views.len(),
                    k <= j,
                    views[j as int] is Some,
                    forall|l: int| 0 <= l < k ==> views[l] != views[j as int],
                ensures
                    first_equal(views, j as int, found as int),
                decreases j - k,
            {
                if store.contains(ExpectedId(k)) && store.get(ExpectedId(k)).equals(store.get(ExpectedId(j))) {
                    found = k;
                    break;
                }
                k += 1;
            }
        }
        canon.push(found);
        j += 1;
    }
    canon
}

impl Parser {
    /// Makes every instruction that refers to a resource of kind `kind` (0
    /// for series, 1 for labels, 2 for expected sets) refer to the first
    /// resource equal to it.
    fn redirect_references(&mut self, kind: u8, canon: &Vec<usize>)
        requires
            old(self).wf(),
            kind <= 2,
            kind == 0 ==> canonicals(series_views(&old(self).series), canon@),
            kind == 1 ==> canonicals(label_views(&old(self).labels), canon@),
            kind == 2 ==> canonicals(expected_views(&old(self).expecteds), canon@),
        ensures
            final(self).wf(),
            final(self).start == old(self).start,
            final(self).series == old(self).series,
            final(self).labels == old(self).labels,
            final(self).expecteds == old(self).expecteds,
            final(self).debug_symbols == old(self).debug_symbols,
            final(self).size() == old(self).size(),
            forall|i: usize| #[trigger] final(self).has(i) == old(self).has(i),
            forall|i: usize| #[trigger] old(self).has(i) ==> final(self).ins(i) == redirected(old(self).ins(i), kind as int, canon@),
    {
        let ghost on_entry = *self;
        let n = self.instruction_count();
        let mut i: usize = 0;
        while i < n
            invariant
                n == on_entry.size(),
                i <= n,
                self.wf(),
                kind <= 2,
                kind == 0 ==> canonicals(series_views(&on_entry.series), canon@),
                kind == 1 ==> canonicals(label_views(&on_entry.labels), canon@),
                kind == 2 ==> canonicals(expected_views(&on_entry.expecteds), canon@),
                self.start == on_entry.start,
                self.series == on_entry.series,
                self.labels == on_entry.labels,
                self.expecteds == on_entry.expecteds,
                self.debug_symbols == on_entry.debug_symbols,
                self.size() == on_entry.size(),
                forall|x: usize| #[trigger] self.has(x) == on_entry.has(x),
                forall|x: usize| #[trigger] on_entry.has(x) && x < i ==> self.ins(x) == redirected(on_entry.ins(x), kind as int, canon@),
                forall|x: usize| #[trigger] on_entry.has(x) && x >= i ==> self.ins(x) == on_entry.ins(x),
            decreases n - i,
        {
            if self.instructions.contains(InstructionId(i)) {
                let ins = self.instruction(InstructionId(i));
                assert(self.has(i));
                assert(on_entry.has(i));
                let new = match ins {
                    Instruction::Series(s) if kind == 0 => Instruction::Series(SeriesId(canon[s.0])),
                    Instruction::Label(t, l) if kind == 1 => Instruction::Label(t, LabelId(canon[l.0])),
                    Instruction::Error(t, e) if kind == 2 => Instruction::Error(t, ExpectedId(canon[e.0])),
                    _ => ins,
                };
                proof {
                    assert(new == redirected(on_entry.ins(i), kind as int, canon@));
                    assert(self.closed_at(i));
                    assert(new.succs() == ins.succs());
                    match ins {
                        Instruction::Series(s) => {
                            if kind == 0 {
                                assert(first_equal(series_views(&on_entry.series), s.0 as int, canon@[s.0 as int] as int));
                                assert(self.series.has(canon@[s.0 as int]));
                            }
                        },
                        Instruction::Label(_, l) => {
                            if kind == 1 {
                                assert(first_equal(label_views(&on_entry.labels), l.0 as int, canon@[l.0 as int] as int));
                                assert(self.labels.has(canon@[l.0 as int]));
                            }
                        },
                        Instruction::Error(_, e) => {
                            if kind == 2 {
                                assert(first_equal(expected_views(&on_entry.expecteds), e.0 as int, canon@[e.0 as int] as int));
                                assert(self.expecteds.has(canon@[e.0 as int]));
                            }
                        },
                        _ => {},
                    }
                    assert(self.instruction_ok(new));
                }
                let ghost before = *self;
                self.replace_instruction(InstructionId(i), new);
                proof {
                    assert forall|x: usize| #[trigger] on_entry.has(x) && x < i + 1 implies self.ins(x) == redirected(on_entry.ins(x), kind as int, canon@) by {
                        if x != i {
                            assert(before.has(x));
                            assert(self.has(x));
                        }
                    }
                    assert forall|x: usize| #[trigger] on_entry.has(x) && x >= i + 1 implies self.ins(x) == on_entry.ins(x) by {
                        assert(before.has(x));
                        assert(self.has(x));
                    }
                }
            } else {
                proof {
                    assert forall|x: usize| #[trigger] on_entry.has(x) && x < i + 1 implies self.ins(x) == redirected(on_entry.ins(x), kind as int, canon@) by {
                        if x == i {
                            assert(self.has(i) == on_entry.has(i));
                        }
                    }
                }
            }
            i += 1;
        }
    }

    /// Makes every instruction refer to the first series, label and
    /// expected set equal to the one that it refers to.
    pub(crate) fn deduplicate_resources(&mut self)
        requires
            old(self).wf(),
        ensures
            final(self).wf(),
            final(self).start == old(self).start,
            final(self).series == old(self).series,
            final(self).labels == old(self).labels,
            final(self).expecteds == old(self).expecteds,
            final(self).debug_symbols == old(self).debug_symbols,
            final(self).size() == old(self).size(),
            forall|i: usize| #[trigger] final(self).has(i) == old(self).has(i),
            exists|c0: Seq<usize>, c1: Seq<usize>, c2: Seq<usize>|
                canonicals(series_views(&old(self).series), c0)
                && canonicals(label_views(&old(self).labels), c1)
                && canonicals(expected_views(&old(self).expecteds), c2)
                && forall|i: usize| #[trigger] old(self).has(i)
                    ==> final(self).ins(i) == redirected(redirected(redirected(old(self).ins(i), 0, c0), 1, c1), 2, c2),
    {
        let ghost on_entry = *self;
        let series = series_canonicals(&self.series);
        self.redirect_references(0, &series);
        let ghost first = *self;
        let labels = label_canonicals(&self.labels);
        self.redirect_references(1, &labels);
        let ghost second = *self;
        let expecteds = expected_canonicals(&self.expecteds);
        self.redirect_references(2, &expecteds);
        proof {
            assert forall|i: usize| #[trigger] on_entry.has(i) implies self.ins(i)
                == redirected(redirected(redirected(on_entry.ins(i), 0, series@), 1, labels@), 2, expecteds@) by {
                assert(first.has(i));
                assert(second.has(i));
            }
        }
    }
}

/// The value of `seahash`'s streaming hasher, with its default seeds, after
/// `bytes` were written to it.
pub uninterp spec fn sea_hash(bytes: Seq<u8>) -> u64;

/// Hashes `bytes` with `seahash::SeaHasher::new()`, one `write` and
/// `finish`. The hasher's value depends only on the bytes written, not on
/// how they were split between writes.
#[verifier::external_body]
fn hash_bytes(bytes: &Vec<u8>) -> (hash: u64)
    ensures
        hash == sea_hash(bytes@),
{
    let mut hasher = SeaHasher::new();
    hasher.write(bytes.as_slice());
    hasher.finish()
}

/// The `count` low bytes of `v`, least significant first.
pub open spec fn le_bytes(v: nat, count: nat) -> Seq<u8>
    decreases count,
{
    if count == 0 {
        Seq::empty()
    } else {
        seq![(v % 256) as u8] + le_bytes(v / 256, (count - 1) as nat)
    }
}

/// Appends the eight little-endian bytes of `v`.
fn push_word(bytes: &mut Vec<u8>, v: u64)
    ensures
        final(bytes)@ == old(bytes)@ + le_bytes(v as nat, 8),
{
    let ghost initial = bytes@;
    let mut x = v;
    let mut k: usize = 0;
    while k < 8
        invariant
            k <= 8,
            initial + le_bytes(v as nat, 8) == bytes@ + le_bytes(x as nat, (8 - k) as nat),
        decreases 8 - k,
    {
        let ghost before = bytes@;
        bytes.push((x % 256) as u8);
        proof {
            let rest = le_bytes(x as nat / 256, (8 - k - 1) as nat);
            assert(le_bytes(x as nat, (8 - k) as nat) == seq![(x as nat % 256) as u8] + rest);
            assert(bytes@ + rest =~= before + (seq![(x as nat % 256) as u8] + rest));
        }
        x = x / 256;
        k += 1;
    }
    assert(bytes@ + le_bytes(x as nat, 0) =~= bytes@);
}

/// The bytes that stand for an instruction apart from its successors.
pub open spec fn intrinsic_code(ins: Instruction) -> Seq<u8> {
    match ins {
        Instruction::Sequence(_, _) => seq![0u8],
        Instruction::Choice(_, _) => le_bytes(1, 8),
        Instruction::NotAhead(_) => seq![2u8],
        Instruction::Error(_, e) => seq![3u8] + le_bytes(e.0 as nat, 8),
        Instruction::Label(_, l) => seq![4u8] + le_bytes(l.0 as nat, 8),
        Instruction::Delegate(_) => seq![5u8],
        Instruction::Series(s) => seq![6u8] + le_bytes(s.0 as nat, 8),
        Instruction::FirstChoice(_, _) => seq![7u8],
        Instruction::Cache(_, slot) => match slot {
            None => seq![8u8, 0u8],
            Some(k) => seq![8u8, 1u8] + le_bytes(k as nat, 8),
        },
    }
}

/// Appends the bytes that stand for `ins` apart from its successors.
fn push_intrinsic(bytes: &mut Vec<u8>, ins: Instruction)
    ensures
        final(bytes)@ == old(bytes)@ + intrinsic_code(ins),
{
    let ghost initial = bytes@;
    match ins {
        Instruction::Sequence(_, _) => bytes.push(0u8),
        Instruction::Choice(_, _) => push_word(bytes, 1),
        Instruction::NotAhead(_) => bytes.push(2u8),
        Instruction::Error(_, e) => {
            bytes.push(3u8);
            push_word(bytes, e.0 as u64);
        },
        Instruction::Label(_, l) => {
            bytes.push(4u8);
            push_word(bytes, l.0 as u64);
        },
        Instruction::Delegate(_) => bytes.push(5u8),
        Instruction::Series(s) => {
            bytes.push(6u8);
            push_word(bytes, s.0 as u64);
        },
        Instruction::FirstChoice(_, _) => bytes.push(7u8),
        Instruction::Cache(_, slot) => {
            bytes.push(8u8);
            match slot {
                None => bytes.push(0u8),
                Some(k) => {
                    bytes.push(1u8);
                    push_word(bytes, k as u64);
                },
            }
        },
    }
    assert(bytes@ =~= initial + intrinsic_code(ins));
}

/// `m` maps every instruction slot to a slot that it maps to itself, and
/// every instruction to an instruction.
pub open spec fn mapping_ok(p: &Parser, m: Seq<usize>) -> bool {
    &&& m.len() == p.size()
    &&& forall|i: int| 0 <= i < m.len() ==> #[trigger] m[i] < m.len()
    &&& forall|i: int| 0 <= i < m.len() ==> m[#[trigger] m[i] as int] == m[i]
    &&& forall|i: usize| #[trigger] p.has(i) ==> p.has(m[i as int])
}

/// `ins` with each successor replaced by its image under `m`.
pub open spec fn remapped(ins: Instruction, m: Seq<usize>) -> Instruction {
    ins.with_succs(ins.succs().map_values(|id: InstructionId| InstructionId(m[id.0 as int])))
}

/// Every instruction and its image under `m` become the same instruction
/// once their successors are mapped by `m`: merging each instruction into
/// its image changes what no instruction matches.
pub open spec fn mapping_sound(p: &Parser, m: Seq<usize>) -> bool {
    &&& mapping_ok(p, m)
    &&& forall|i: usize| #[trigger] p.has(i) ==> remapped(p.ins(m[i as int]), m) == remapped(p.ins(i), m)
}

/// `flags` tells for each instruction slot whether it holds an instruction.
pub open spec fn present_flags(p: &Parser, flags: Seq<bool>) -> bool {
    &&& flags.len() == p.size()
    &&& forall|i: int| 0 <= i < flags.len() ==> (#[trigger] flags[i] <==> p.has(i as usize))
}

impl Parser {
    /// A flag for each instruction slot: whether it holds an instruction.
    fn presence(&self) -> (flags: Vec<bool>)
        ensures
            present_flags(self, flags@),
    {
        let n = self.instruction_count();
        let mut flags: Vec<bool> = Vec::new();
        while flags.len() < n
            invariant
                n == self.size(),
                flags@.len() <= n,
                forall|i: int| 0 <= i < flags@.len() ==> (#[trigger] flags@[i] <==> self.has(i as usize)),
            decreases n - flags@.len(),
        {
            let i = flags.len();
            flags.push(self.instructions.contains(InstructionId(i)));
        }
        flags
    }

    /// `ins`, an instruction of the parser, with each successor replaced
    /// by its image under `map`.
    fn remap_instruction(&self, ins: Instruction, map: &Vec<usize>) -> (result: Instruction)
        requires
            mapping_ok(self, map@),
            forall|k: int| 0 <= k < ins.succs().len() ==> self.has(#[trigger] ins.succs()[k].0),
        ensures
            result == remapped(ins, map@),
            self.instruction_ok(ins) ==> self.instruction_ok(result),
    {
        let succs = ins.successors();
        let mut mapped: Vec<InstructionId> = Vec::new();
        let mut k: usize = 0;
        while k < succs.len()
            invariant
                succs@ == ins.succs(),
                mapping_ok(self, map@),
                forall|j: int| 0 <= j < ins.succs().len() ==> self.has(#[trigger] ins.succs()[j].0),
                k <= succs@.len(),
                mapped@.len() == k,
                forall|j: int| 0 <= j < k ==> #[trigger] mapped@[j] == InstructionId(map@[succs@[j].0 as int]),
            decreases succs@.len() - k,
        {
            assert(self.has(succs@[k as int].0));
            mapped.push(InstructionId(map[succs[k].0]));
            k += 1;
        }
        assert(mapped@ =~= ins.succs().map_values(|id: InstructionId| InstructionId(map@[id.0 as int])));
        let result = ins.with_successors(&mapped);
        proof {
            assert forall|k: int| 0 <= k < result.succs().len() implies self.has(#[trigger] result.succs()[k].0) by {
                assert(self.has(succs@[k].0));
            }
        }
        result
    }

    /// Maps everything that `map` sends to the image of `a` to the image of
    /// `b` instead.
    fn merge_into(&self, map: &mut Vec<usize>, a: usize, b: usize)
        requires
            mapping_ok(self, old(map)@),
            self.has(a),
            self.has(b),
        ensures
            mapping_ok(self, final(map)@),
            final(map)@.len() == old(map)@.len(),
            forall|j: int| 0 <= j < final(map)@.len() ==> #[trigger] final(map)@[j]
                == if old(map)@[j] == old(map)@[a as int] { old(map)@[b as int] } else { old(map)@[j] },
    {
        let from = map[a];
        let to = map[b];
        assert(self.has(to));
        if from != to {
            let ghost on_entry = map@;
            let mut x: usize = 0;
            while x < map.len()
                invariant
                    map@.len() == on_entry.len(),
                    mapping_ok(self, on_entry),
                    from < on_entry.len(),
                    to < on_entry.len(),
                    on_entry[to as int] == to,
                    on_entry[from as int] == from,
                    from != to,
                    self.has(to),
                    x <= map@.len(),
                    forall|j: int| 0 <= j < map@.len() ==> #[trigger] map@[j] == if j < x && on_entry[j] == from {
                        to
                    } else {
                        on_entry[j]
                    },
                decreases map@.len() - x,
            {
                if map[x] == from {
                    map.set(x, to);
                }
                x += 1;
            }
            proof {
                assert forall|i: int| 0 <= i < map@.len() implies map@[#[trigger] map@[i] as int] == map@[i] by {
                    assert(on_entry[on_entry[i] as int] == on_entry[i]);
                }
                assert forall|i: usize| #[trigger] self.has(i) implies self.has(map@[i as int]) by {
                    assert(self.has(on_entry[i as int]));
                }
            }
        }
    }

    /// The hash of the part of a component that can be walked from the
    /// image of `start`: each instruction apart from its successors, each
    /// return to an instruction seen before by the order in which it was
    /// first seen, and each reference out of the component (whose root is
    /// `root`) by the image of its target.
    fn canonical_hash(&self, start: usize, root: usize, roots: &Vec<usize>, map: &Vec<usize>) -> (hash: u64)
        requires
            self.wf(),
            mapping_ok(self, map@),
            roots@.len() == self.size(),
            self.has(start),
        ensures
            exists|walked: Seq<u8>| hash == sea_hash(walked)
                && walked.len() >= 1 + intrinsic_code(self.ins(map@[start as int])).len()
                && #[trigger] walked.subrange(0, 1 + intrinsic_code(self.ins(map@[start as int])).len() as int)
                    == seq![1u8] + intrinsic_code(self.ins(map@[start as int])),
    {
        let ghost head = seq![1u8] + intrinsic_code(self.ins(map@[start as int]));
        let n = self.instruction_count();
        let mut order: Vec<usize> = Vec::new();
        while order.len() < n
            invariant
                order@.len() <= n,
                forall|j: int| 0 <= j < order@.len() ==> #[trigger] order@[j] == n,
            decreases n - order@.len(),
        {
            order.push(n);
        }
        let ghost mut unseen: Set<int> = set_int_range(0, n as int);
        proof {
            lemma_int_range(0, n as int);
        }
        let mut count: usize = 0;
        let mut bytes: Vec<u8> = Vec::new();
        let mut stack: Vec<usize> = Vec::new();
        assert(self.has(map@[start as int]));
        stack.push(map[start]);
        while stack.len() > 0
            invariant
                n == self.size(),
                self.wf(),
                mapping_ok(self, map@),
                roots@.len() == n,
                order@.len() == n,
                unseen.finite(),
                count + unseen.len() == n,
                forall|j: int| 0 <= j < n ==> (#[trigger] order@[j] == n <==> unseen.contains(j)),
                forall|j: int| 0 <= j < n ==> #[trigger] order@[j] <= n,
                forall|j: int| 0 <= j < stack@.len() ==> self.has(#[trigger] stack@[j]),
                head == seq![1u8] + intrinsic_code(self.ins(map@[start as int])),
                map@[start as int] < n,
                bytes@.len() == 0 ==> stack@ == seq![map@[start as int]] && order@[map@[start as int] as int] == n,
                bytes@.len() > 0 ==> bytes@.len() >= head.len() && bytes@.subrange(0, head.len() as int) == head,
            decreases unseen.len(), stack@.len(),
        {
            let ghost st0 = stack@;
            let id = stack.pop().unwrap();
            if order[id] < n {
                proof {
                    if bytes@.len() == 0 {
                        assert(id == st0[0]);
                    }
                }
                let ghost b0 = bytes@;
                bytes.push(0u8);
                push_word(&mut bytes, order[id] as u64);
                proof {
                    assert(bytes@.subrange(0, head.len() as int) =~= b0.subrange(0, head.len() as int));
                }
            } else {
                proof {
                    assert(unseen.contains(id as int));
                    assert(unseen.remove(id as int).len() == unseen.len() - 1);
                }
                order.set(id, count);
                count += 1;
                proof {
                    unseen = unseen.remove(id as int);
                }
                let ins = self.instruction(InstructionId(id));
                let ghost b0 = bytes@;
                bytes.push(1u8);
                push_intrinsic(&mut bytes, ins);
                proof {
                    if b0.len() == 0 {
                        assert(id == st0[0]);
                        assert(bytes@ =~= head);
                    } else {
                        assert(bytes@.subrange(0, head.len() as int) =~= b0.subrange(0, head.len() as int));
                    }
                }
                let succs = ins.successors();
                let mut k: usize = 0;
                while k < succs.len()
                    invariant
                        bytes@.len() >= head.len() && bytes@.subrange(0, head.len() as int) == head,
                        self.wf(),
                        self.has(id),
                        succs@ == self.ins(id).succs(),
                        mapping_ok(self, map@),
                        roots@.len() == n,
                        n == self.size(),
                        k <= succs@.len(),
                        forall|j: int| 0 <= j < stack@.len() ==> self.has(#[trigger] stack@[j]),
                    decreases succs@.len() - k,
                {
                    assert(self.closed_at(id));
                    assert(self.has(succs@[k as int].0));
                    let target = map[succs[k].0];
                    assert(self.has(target));
                    if roots[target] == root {
                        stack.push(target);
                    } else {
                        let ghost b1 = bytes@;
                        bytes.push(2u8);
                        push_word(&mut bytes, target as u64);
                        proof {
                            assert(bytes@.subrange(0, head.len() as int) =~= b1.subrange(0, head.len() as int));
                        }
                    }
                    k += 1;
                }
            }
        }
        proof {
            if bytes@.len() == 0 {
                assert(stack@.len() == 1);
            }
        }
        hash_bytes(&bytes)
    }
}

/// `order` lists instructions of the component whose root is `root`, each
/// once, `entry` among them when it belongs to that component, and with
/// each of them every instruction of the component that it leads to in
/// `adj`.
pub(crate) open spec fn component_walk(p: &Parser, adj: Seq<Vec<usize>>, roots: Seq<usize>, root: usize, entry: usize, order: Seq<usize>) -> bool {
    &&& forall|x: int| 0 <= x < order.len() ==> p.has(#[trigger] order[x]) && roots[order[x] as int] == root
    &&& forall|x: int, y: int| 0 <= x < y < order.len() ==> #[trigger] order[x] != #[trigger] order[y]
    &&& p.has(entry) && roots[entry as int] == root ==> exists|x: int| 0 <= x < order.len() && #[trigger] order[x] == entry
    &&& forall|x: int, y: int| 0 <= x < order.len() && 0 <= y < adj[order[x] as int]@.len()
        && p.has(#[trigger] adj[order[x] as int]@[y]) && roots[adj[order[x] as int]@[y] as int] == root
        ==> order.contains(adj[order[x] as int]@[y])
}

/// `m` with everything that it sends to the image of `a` sent to the
/// image of `b` instead.
pub open spec fn merged(m: Seq<usize>, a: usize, b: usize) -> Seq<usize> {
    Seq::new(m.len(), |j: int| if m[j] == m[a as int] { m[b as int] } else { m[j] })
}

/// The first index from `k` on at which `canon` holds `c`.
pub open spec fn first_canon(canon: Seq<(Instruction, usize)>, c: Instruction, k: int) -> Option<int>
    decreases canon.len() - k,
{
    if k < 0 || k >= canon.len() {
        None
    } else if canon[k].0 == c {
        Some(k)
    } else {
        first_canon(canon, c, k + 1)
    }
}

/// The mapping, and the instructions kept so far with their mapped forms,
/// once the first `j` instructions of `order` are handled: each is merged
/// into the first one kept before it that is the same once successors are
/// mapped, and is kept otherwise.
pub open spec fn start_merges(p: &Parser, order: Seq<usize>, m0: Seq<usize>, j: int) -> (Seq<usize>, Seq<(Instruction, usize)>)
    decreases j,
{
    if j <= 0 {
        (m0, Seq::empty())
    } else {
        let (m, canon) = start_merges(p, order, m0, j - 1);
        let id = order[j - 1];
        let c = remapped(p.ins(id), m);
        match first_canon(canon, c, 0) {
            Some(k) => (merged(m, id, canon[k].1), canon),
            None => (m, canon.push((c, id))),
        }
    }
}

impl Parser {
    /// Within the component whose root is `root`, walks from `entry` and,
    /// in the order in which the walk leaves them, merges each instruction
    /// into the first one left before it that is the same once successors
    /// are mapped.
    #[verifier::rlimit(60)]
    fn merge_within_component(&self, root: usize, entry: usize, roots: &Vec<usize>, adj: &Vec<Vec<usize>>, map: &mut Vec<usize>)
        requires
            self.wf(),
            self.has(entry),
            mapping_ok(self, old(map)@),
            roots@.len() == self.size(),
            below(roots@, self.size() as int),
            adj@.len() == self.size(),
            lists_below(adj@, self.size() as int),
        ensures
            mapping_ok(self, final(map)@),
            exists|order: Seq<usize>| #[trigger] component_walk(self, adj@, roots@, root, entry, order)
                && final(map)@ == start_merges(self, order, old(map)@, order.len() as int).0,
    {
        let ghost m0 = map@;
        let n = self.instruction_count();
        let mut identity: Vec<usize> = Vec::new();
        let mut allowed: Vec<bool> = Vec::new();
        while identity.len() < n
            invariant
                n == self.size(),
                roots@.len() == n,
                identity@.len() <= n,
                allowed@.len() == identity@.len(),
                forall|j: int| 0 <= j < identity@.len() ==> #[trigger] identity@[j] == j,
                forall|j: int| 0 <= j < allowed@.len() ==> (#[trigger] allowed@[j] <==> (self.has(j as usize) && roots@[j] == root)),
            decreases n - identity@.len(),
        {
            let v = identity.len();
            allowed.push(self.instructions.contains(InstructionId(v)) && roots[v] == root);
            identity.push(v);
        }
        let mut starts: Vec<usize> = Vec::new();
        starts.push(entry);
        let order = postorder(adj, &identity, &allowed, &starts);
        proof {
            assert(self.has(entry));
            assert(starts@[0] == entry);
            if roots@[entry as int] == root {
                assert(allowed@[starts@[0] as int]);
                assert(has_key(order@, identity@, identity@[starts@[0] as int] as int));
                let x = choose|x: int| 0 <= x < order@.len() && identity@[#[trigger] order@[x] as int] == identity@[starts@[0] as int] as int;
                assert(order@[x] == entry);
            }
            assert forall|x: int, y: int| 0 <= x < y < order@.len() implies #[trigger] order@[x] != #[trigger] order@[y] by {
                assert(identity@[order@[x] as int] != identity@[order@[y] as int]);
            }
            assert forall|x: int| 0 <= x < order@.len() implies self.has(#[trigger] order@[x]) && roots@[order@[x] as int] == root by {
                assert(allowed@[order@[x] as int]);
            }
            assert forall|x: int, y: int| 0 <= x < order@.len() && 0 <= y < adj@[order@[x] as int]@.len()
                && self.has(#[trigger] adj@[order@[x] as int]@[y]) && roots@[adj@[order@[x] as int]@[y] as int] == root
                implies order@.contains(adj@[order@[x] as int]@[y]) by {
                let w = adj@[order@[x] as int]@[y];
                assert(below(adj@[order@[x] as int]@, n as int));
                assert(identity@[order@[x] as int] == order@[x]);
                assert(succ_of(adj@, identity@, order@[x], y) == w);
                assert(allowed@[w as int]);
                assert(has_key(order@, identity@, identity@[w as int] as int));
                let z = choose|z: int| 0 <= z < order@.len() && identity@[#[trigger] order@[z] as int] == identity@[w as int] as int;
                assert(order@[z] == w);
            }
            assert(component_walk(self, adj@, roots@, root, entry, order@));
        }
        let mut canon: Vec<(Instruction, usize)> = Vec::new();
        let mut j: usize = 0;
        while j < order.len()
            invariant
                n == self.size(),
                self.wf(),
                mapping_ok(self, map@),
                (map@, canon@) == start_merges(self, order@, m0, j as int),
                allowed@.len() == n,
                forall|x: int| 0 <= x < n ==> (#[trigger] allowed@[x] ==> self.has(x as usize)),
                forall|x: int| 0 <= x < order@.len() ==> allowed@[#[trigger] order@[x] as int],
                below(order@, n as int),
                j <= order@.len(),
                forall|x: int| 0 <= x < canon@.len() ==> self.has((#[trigger] canon@[x]).1),
            decreases order@.len() - j,
        {
            let id = order[j];
            assert(allowed@[order@[j as int] as int]);
            let ins = self.instruction(InstructionId(id));
            assert(self.closed_at(id));
            let c = self.remap_instruction(ins, map);
            let ghost m1 = map@;
            let mut hit = false;
            let mut k: usize = 0;
            while k < canon.len() && !hit
                invariant
                    k <= canon@.len(),
                    !hit ==> first_canon(canon@, c, 0) == first_canon(canon@, c, k as int),
                    hit ==> k < canon@.len() && first_canon(canon@, c, 0) == Some(k as int),
                decreases canon@.len() - k, if hit { 0int } else { 1int },
            {
                if canon[k].0 == c {
                    assert(first_canon(canon@, c, k as int) == Some(k as int));
                    hit = true;
                } else {
                    k += 1;
                }
            }
            if hit {
                assert(self.has(canon@[k as int].1));
                self.merge_into(map, id, canon[k].1);
                assert(map@ =~= merged(m1, id, canon@[k as int].1));
            } else {
                assert(first_canon(canon@, c, k as int) is None);
                canon.push((c, id));
                proof {
                    assert forall|x: int| 0 <= x < canon@.len() implies self.has((#[trigger] canon@[x]).1) by {
                        if x == canon@.len() - 1 {
                            assert(canon@[x].1 == id);
                        }
                    }
                }
            }
            proof {
                assert(c == remapped(self.ins(order@[j as int]), m1));
            }
            j += 1;
        }
        proof {
            assert(map@ == start_merges(self, order@, m0, order@.len() as int).0);
        }
    }

    /// Merges the component walked from `source` (whose root is
    /// `source_root`) into the equal one walked from `dest` (whose root is
    /// `dest_root`), pairing the instructions that the two walks meet in
    /// step. Merges nothing when the two turn out not to have the same
    /// shape.
    fn merge_components(&self, source: usize, source_root: usize, dest: usize, dest_root: usize, roots: &Vec<usize>, map: &mut Vec<usize>)
        requires
            self.wf(),
            mapping_ok(self, old(map)@),
            roots@.len() == self.size(),
            self.has(source),
            self.has(dest),
        ensures
            mapping_ok(self, final(map)@),
    {
        let n = self.instruction_count();
        let mut visited = falses(n);
        let ghost mut unvisited: Set<int> = set_int_range(0, n as int);
        proof {
            lemma_int_range(0, n as int);
        }
        let mut pairs: Vec<(usize, usize)> = Vec::new();
        let mut stack: Vec<(usize, usize)> = Vec::new();
        assert(self.has(map@[source as int]));
        assert(self.has(map@[dest as int]));
        stack.push((map[source], map[dest]));
        while stack.len() > 0
            invariant
                n == self.size(),
                self.wf(),
                mapping_ok(self, map@),
                roots@.len() == n,
                visited@.len() == n,
                unvisited.finite(),
                forall|j: int| 0 <= j < n ==> (!#[trigger] visited@[j] <==> unvisited.contains(j)),
                forall|j: int| 0 <= j < stack@.len() ==> self.has((#[trigger] stack@[j]).0) && self.has(stack@[j].1),
                forall|j: int| 0 <= j < pairs@.len() ==> self.has((#[trigger] pairs@[j]).0) && self.has(pairs@[j].1),
            decreases unvisited.len(), stack@.len(),
        {
            let (a, b) = stack.pop().unwrap();
            let a_seen = visited[a];
            visited.set(a, true);
            let b_seen = visited[b];
            visited.set(b, true);
            proof {
                unvisited = unvisited.remove(a as int).remove(b as int);
            }
            if a_seen != b_seen {
                return;
            }
            if !a_seen {
                let x = self.instruction(InstructionId(a));
                let y = self.instruction(InstructionId(b));
                let xs = x.successors();
                let ys = y.successors();
                let mut k: usize = 0;
                while k < xs.len() && k < ys.len()
                    invariant
                        self.wf(),
                        self.has(a),
                        self.has(b),
                        xs@ == self.ins(a).succs(),
                        ys@ == self.ins(b).succs(),
                        mapping_ok(self, map@),
                        roots@.len() == n,
                        n == self.size(),
                        forall|j: int| 0 <= j < stack@.len() ==> self.has((#[trigger] stack@[j]).0) && self.has(stack@[j].1),
                    decreases xs@.len() - k,
                {
                    assert(self.closed_at(a));
                    assert(self.closed_at(b));
                    assert(self.has(xs@[k as int].0));
                    assert(self.has(ys@[k as int].0));
                    let p = map[xs[k].0];
                    let q = map[ys[k].0];
                    let p_inside = roots[p] == source_root;
                    let q_inside = roots[q] == dest_root;
                    if p_inside != q_inside {
                        return;
                    }
                    if p_inside {
                        stack.push((p, q));
                    }
                    k += 1;
                }
                pairs.push((a, b));
            }
        }
        let mut j: usize = 0;
        while j < pairs.len()
            invariant
                self.wf(),
                mapping_ok(self, map@),
                j <= pairs@.len(),
                forall|x: int| 0 <= x < pairs@.len() ==> self.has((#[trigger] pairs@[x]).0) && self.has(pairs@[x].1),
            decreases pairs@.len() - j,
        {
            let (a, b) = pairs[j];
            assert(self.has(pairs@[j as int].0));
            self.merge_into(map, a, b);
            j += 1;
        }
    }
}

impl Parser {
    /// Deduplicates the component whose walk is entered at `entry`: the
    /// component first merges equal instructions within itself; then a
    /// component whose hash from `entry` was seen before is
    /// merged into the one it was seen from, and otherwise the hashes from
    /// each of its members are recorded.
    fn deduplicate_component(
        &self,
        entry: usize,
        roots: &Vec<usize>,
        members: &Vec<Vec<usize>>,
        adj: &Vec<Vec<usize>>,
        map: &mut Vec<usize>,
        hashes: &mut Vec<(u64, usize)>,
    )
        requires
            self.wf(),
            mapping_ok(self, old(map)@),
            self.has(entry),
            roots@.len() == self.size(),
            below(roots@, self.size() as int),
            adj@.len() == self.size(),
            lists_below(adj@, self.size() as int),
            members@.len() == self.size(),
            forall|r: int, k: int| 0 <= r < members@.len() && 0 <= k < members@[r]@.len() ==> self.has(#[trigger] members@[r]@[k]),
            forall|x: int| 0 <= x < old(hashes)@.len() ==> self.has((#[trigger] old(hashes)@[x]).1),
        ensures
            mapping_ok(self, final(map)@),
            forall|x: int| 0 <= x < final(hashes)@.len() ==> self.has((#[trigger] final(hashes)@[x]).1),
    {
        let root = roots[entry];
        self.merge_within_component(root, entry, roots, adj, map);
        let hash = self.canonical_hash(entry, root, roots, map);
        let mut k: usize = 0;
        while k < hashes.len()
            invariant
                self.wf(),
                self.has(entry),
                mapping_ok(self, map@),
                roots@.len() == self.size(),
                below(roots@, self.size() as int),
                k <= hashes@.len(),
                forall|x: int| 0 <= x < hashes@.len() ==> self.has((#[trigger] hashes@[x]).1),
            decreases hashes@.len() - k,
        {
            if hashes[k].0 == hash {
                let replacement = hashes[k].1;
                assert(self.has(hashes@[k as int].1));
                self.merge_components(entry, root, replacement, roots[replacement], roots, map);
                return;
            }
            k += 1;
        }
        let group = &members[root];
        let mut i: usize = 0;
        while i < group.len()
            invariant
                self.wf(),
                mapping_ok(self, map@),
                roots@.len() == self.size(),
                members@.len() == self.size(),
                root < self.size(),
                *group == members@[root as int],
                forall|r: int, k: int| 0 <= r < members@.len() && 0 <= k < members@[r]@.len() ==> self.has(#[trigger] members@[r]@[k]),
                i <= group@.len(),
                forall|x: int| 0 <= x < hashes@.len() ==> self.has((#[trigger] hashes@[x]).1),
            decreases group@.len() - i,
        {
            let member = group[i];
            assert(self.has(members@[root as int]@[i as int]));
            let h = self.canonical_hash(member, root, roots, map);
            let mut k: usize = 0;
            let mut replaced = false;
            while k < hashes.len()
                invariant
                    self.has(member),
                    k <= hashes@.len(),
                    forall|x: int| 0 <= x < hashes@.len() ==> self.has((#[trigger] hashes@[x]).1),
                decreases hashes@.len() - k,
            {
                if hashes[k].0 == h {
                    hashes.set(k, (h, member));
                    replaced = true;
                    break;
                }
                k += 1;
            }
            if !replaced {
                hashes.push((h, member));
            }
            i += 1;
        }
    }

    /// Whether `map` is sound for the parser.
    fn check_mapping(&self, map: &Vec<usize>) -> (sound: bool)
        requires
            self.wf(),
            mapping_ok(self, map@),
        ensures
            sound == mapping_sound(self, map@),
    {
        let n = self.instruction_count();
        let mut i: usize = 0;
        while i < n
            invariant
                n == self.size(),
                self.wf(),
                mapping_ok(self, map@),
                i <= n,
                forall|x: usize| x < i && #[trigger] self.has(x) ==> remapped(self.ins(map@[x as int]), map@) == remapped(self.ins(x), map@),
            decreases n - i,
        {
            if self.instructions.contains(InstructionId(i)) {
                let target = map[i];
                assert(self.has(i));
                assert(self.has(target));
                let a = self.instruction(InstructionId(target));
                let b = self.instruction(InstructionId(i));
                assert(self.closed_at(target));
                assert(self.closed_at(i));
                let ra = self.remap_instruction(a, map);
                let rb = self.remap_instruction(b, map);
                if ra != rb {
                    return false;
                }
            }
            i += 1;
        }
        true
    }

    /// Redirects every reference, and the start, along `map`, after
    /// merging the debug symbol of each instruction into that of its
    /// image.
    fn apply_mapping(&mut self, map: &Vec<usize>)
        requires
            old(self).wf(),
            mapping_sound(old(self), map@),
        ensures
            final(self).wf(),
            final(self).size() == old(self).size(),
            final(self).series == old(self).series,
            final(self).labels == old(self).labels,
            final(self).expecteds == old(self).expecteds,
            forall|i: usize| #[trigger] final(self).has(i) == old(self).has(i),
            final(self).start.0 == map@[old(self).start.0 as int],
            forall|i: usize| #[trigger] old(self).has(i) ==> final(self).ins(i) == remapped(old(self).ins(i), map@),
            forall|i: usize, k: Seq<u8>| #[trigger] old(self).has(i) && #[trigger] old(self).debug_symbols.value(i).names@.contains(k)
                ==> final(self).debug_symbols.value(map@[i as int]).names@.contains(k),
    {
        let ghost on_entry = *self;
        let n = self.instruction_count();
        let mut i: usize = 0;
        while i < n
            invariant
                n == on_entry.size(),
                i <= n,
                self.wf(),
                on_entry.wf(),
                mapping_sound(&on_entry, map@),
                self.instructions == on_entry.instructions,
                self.start == on_entry.start,
                self.series == on_entry.series,
                self.labels == on_entry.labels,
                self.expecteds == on_entry.expecteds,
                forall|x: usize| #[trigger] self.debug_symbols.has(x) == on_entry.debug_symbols.has(x),
                forall|x: usize, k: Seq<u8>| #[trigger] on_entry.has(x) && #[trigger] on_entry.debug_symbols.value(x).names@.contains(k)
                    ==> self.debug_symbols.value(x).names@.contains(k),
                forall|x: usize, k: Seq<u8>| x < i && #[trigger] on_entry.has(x) && #[trigger] on_entry.debug_symbols.value(x).names@.contains(k)
                    ==> self.debug_symbols.value(map@[x as int]).names@.contains(k),
            decreases n - i,
        {
            if self.instructions.contains(InstructionId(i)) {
                let target = map[i];
                assert(self.has(i));
                assert(on_entry.has(i));
                assert(on_entry.has(target));
                assert(self.has(target));
                assert(self.debug_symbols.has(i));
                assert(self.debug_symbols.has(target));
                let merged = DebugSymbol::merge(self.debug_symbols.get(InstructionId(i)), self.debug_symbols.get(InstructionId(target)));
                let ghost prior = *self;
                self.debug_symbols.set(InstructionId(target), merged);
                proof {
                    assert forall|x: usize| #[trigger] self.debug_symbols.has(x) == on_entry.debug_symbols.has(x) by {
                        assert(prior.debug_symbols.has(x) == on_entry.debug_symbols.has(x));
                    }
                    assert forall|x: usize, k: Seq<u8>| #[trigger] on_entry.has(x) && #[trigger] on_entry.debug_symbols.value(x).names@.contains(k)
                        implies self.debug_symbols.value(x).names@.contains(k) by {
                        assert(prior.debug_symbols.value(x).names@.contains(k));
                        assert(on_entry.debug_symbols.has(x));
                        assert(prior.debug_symbols.has(x));
                        if x == target {
                            assert(self.debug_symbols.value(x) == merged);
                        } else {
                            assert(self.debug_symbols@[x as int] == prior.debug_symbols@[x as int]);
                        }
                    }
                    assert forall|x: usize, k: Seq<u8>| x < i + 1 && #[trigger] on_entry.has(x) && #[trigger] on_entry.debug_symbols.value(x).names@.contains(k)
                        implies self.debug_symbols.value(map@[x as int]).names@.contains(k) by {
                        let t = map@[x as int];
                        assert(on_entry.has(t));
                        assert(on_entry.debug_symbols.has(t));
                        assert(prior.debug_symbols.has(t));
                        if x == i {
                            assert(prior.debug_symbols.value(i).names@.contains(k));
                            assert(self.debug_symbols.value(t) == merged);
                        } else {
                            assert(prior.debug_symbols.value(t).names@.contains(k));
                            if t == target {
                                assert(self.debug_symbols.value(t) == merged);
                            } else {
                                assert(self.debug_symbols@[t as int] == prior.debug_symbols@[t as int]);
                            }
                        }
                    }
                    assert forall|x: usize| #[trigger] self.has(x) implies self.debug_symbols.has(x) by {
                        assert(on_entry.has(x));
                        assert(on_entry.debug_symbols.has(x));
                    }
                    assert(self.has(self.start.0)) by {
                        assert(on_entry.has(on_entry.start.0));
                    }
                    lemma_wf_same_body(&on_entry, self);
                }
            }
            i += 1;
        }
        let ghost symbols = *self;
        proof {
            assert forall|x: usize| #[trigger] self.has(x) implies self.has(map@[x as int]) by {
                assert(on_entry.has(x));
            }
        }
        let mut i: usize = 0;
        while i < n
            invariant
                n == on_entry.size(),
                i <= n,
                self.wf(),
                on_entry.wf(),
                mapping_sound(&on_entry, map@),
                self.start == on_entry.start,
                self.series == on_entry.series,
                self.labels == on_entry.labels,
                self.expecteds == on_entry.expecteds,
                self.debug_symbols == symbols.debug_symbols,
                self.size() == on_entry.size(),
                mapping_ok(self, map@),
                forall|x: usize| #[trigger] self.has(x) == on_entry.has(x),
                forall|x: usize| #[trigger] on_entry.has(x) && x < i ==> self.ins(x) == remapped(on_entry.ins(x), map@),
                forall|x: usize| #[trigger] on_entry.has(x) && x >= i ==> self.ins(x) == on_entry.ins(x),
            decreases n - i,
        {
            if self.instructions.contains(InstructionId(i)) {
                assert(self.has(i));
                assert(on_entry.has(i));
                let ins = self.instruction(InstructionId(i));
                assert(on_entry.closed_at(i));
                assert(self.instruction_ok(ins));
                let new = self.remap_instruction(ins, map);
                let ghost before = *self;
                self.replace_instruction(InstructionId(i), new);
                proof {
                    assert forall|x: usize| #[trigger] on_entry.has(x) && x < i + 1 implies self.ins(x) == remapped(on_entry.ins(x), map@) by {
                        if x != i {
                            assert(before.has(x));
                            assert(self.has(x));
                        }
                    }
                    assert forall|x: usize| #[trigger] on_entry.has(x) && x >= i + 1 implies self.ins(x) == on_entry.ins(x) by {
                        assert(before.has(x));
                        assert(self.has(x));
                    }
                    assert forall|x: usize| #[trigger] self.has(x) implies self.has(map@[x as int]) by {
                        assert(before.has(x));
                        assert(before.has(map@[x as int]));
                    }
                }
            } else {
                proof {
                    assert forall|x: usize| #[trigger] on_entry.has(x) && x < i + 1 implies self.ins(x) == remapped(on_entry.ins(x), map@) by {
                        if x == i {
                            assert(self.has(i) == on_entry.has(i));
                        }
                    }
                }
            }
            i += 1;
        }
        let target = map[self.start.0];
        assert(on_entry.has(on_entry.start.0));
        let ghost before = *self;
        self.start = InstructionId(target);
        proof {
            assert(before.has(target));
            assert(self.has(self.start.0));
            assert forall|x: usize| #[trigger] self.has(x) implies self.debug_symbols.has(x) by {
                assert(before.has(x));
            }
            lemma_wf_same_body(&before, self);
        }
    }
}

/// A parser with the same instructions, series, labels and expected sets as
/// a whole one, a start that exists and a debug symbol for every
/// instruction is whole.
proof fn lemma_wf_same_body(a: &Parser, b: &Parser)
    requires
        a.wf(),
        a.instructions == b.instructions,
        a.series == b.series,
        a.labels == b.labels,
        a.expecteds == b.expecteds,
        b.has(b.start.0),
        forall|i: usize| #[trigger] b.has(i) ==> b.debug_symbols.has(i),
    ensures
        b.wf(),
        forall|i: usize| #[trigger] b.has(i) == a.has(i),
{
    assert forall|j: usize| b.has(j) implies #[trigger] b.closed_at(j) by {
        assert(a.has(j));
        assert(a.closed_at(j));
    }
    assert forall|j: usize| #[trigger] b.has(j) implies match b.ins(j) {
        Instruction::Series(s) => b.series.has(s.0),
        _ => true,
    } by {
        assert(a.has(j));
    }
    assert forall|j: usize| #[trigger] b.has(j) implies match b.ins(j) {
        Instruction::Label(_, l) => b.labels.has(l.0),
        _ => true,
    } by {
        assert(a.has(j));
    }
    assert forall|j: usize| #[trigger] b.has(j) implies match b.ins(j) {
        Instruction::Error(_, e) => b.expecteds.has(e.0),
        _ => true,
    } by {
        assert(a.has(j));
    }
}

/// An instruction with its own successors put back is itself.
proof fn lemma_identity_remap(p: &Parser, ins: Instruction, m: Seq<usize>)
    requires
        forall|k: int| 0 <= k < ins.succs().len() ==> #[trigger] ins.succs()[k].0 < m.len()
            && m[ins.succs()[k].0 as int] == ins.succs()[k].0,
    ensures
        remapped(ins, m) == ins,
{
    let mapped = ins.succs().map_values(|id: InstructionId| InstructionId(m[id.0 as int]));
    assert(mapped =~= ins.succs());
}

impl Parser {
    /// Merges instructions that match alike: the strongly connected
    /// components of the graph are walked bottom up from the start's, and
    /// each is merged into an equal one seen before; within each component,
    /// equal instructions are merged too. Whether two components
    /// are equal is judged by the hashes of their walks; the merges are
    /// applied only when every merged instruction turns out to be the same
    /// as the one it is merged into, once references are redirected.
    pub(crate) fn deduplicate_components(&mut self)
        requires
            old(self).wf(),
        ensures
            final(self).wf(),
            final(self).size() == old(self).size(),
            final(self).series == old(self).series,
            final(self).labels == old(self).labels,
            final(self).expecteds == old(self).expecteds,
            forall|i: usize| #[trigger] final(self).has(i) == old(self).has(i),
            exists|m: Seq<usize>|
                #[trigger] mapping_sound(old(self), m)
                && final(self).start.0 == m[old(self).start.0 as int]
                && (forall|i: usize| #[trigger] old(self).has(i) ==> final(self).ins(i) == remapped(old(self).ins(i), m))
                && (forall|i: usize, k: Seq<u8>| #[trigger] old(self).has(i) && #[trigger] old(self).debug_symbols.value(i).names@.contains(k)
                    ==> final(self).debug_symbols.value(m[i as int]).names@.contains(k)),
    {
        let ghost on_entry = *self;
        let n = self.instruction_count();
        let adj = self.successor_adjacency();
        proof {
            assert(lists_of(adj@).len() == adj@.len());
            assert(adj@.len() == n);
            assert forall|v: int| 0 <= v < adj@.len() implies below(#[trigger] adj@[v]@, n as int) by {
                assert forall|j: int| 0 <= j < adj@[v]@.len() implies #[trigger] adj@[v]@[j] < n by {
                    assert(lists_of(adj@)[v] == adj@[v]@);
                }
            }
        }
        let present = self.presence();
        let roots = component_roots(&adj, &present);
        let members = component_members(&roots, &present);
        let outs = component_successors(&adj, &roots, &members);
        let mut map: Vec<usize> = Vec::new();
        while map.len() < n
            invariant
                n == self.size(),
                map@.len() <= n,
                forall|j: int| 0 <= j < map@.len() ==> #[trigger] map@[j] == j,
            decreases n - map@.len(),
        {
            let v = map.len();
            map.push(v);
        }
        let ghost identity = map@;
        let mut starts: Vec<usize> = Vec::new();
        starts.push(self.start.0);
        let order = postorder(&outs, &roots, &present, &starts);
        let mut hashes: Vec<(u64, usize)> = Vec::new();
        let mut j: usize = 0;
        while j < order.len()
            invariant
                n == self.size(),
                self.wf(),
                *self == on_entry,
                mapping_ok(self, map@),
                present_flags(self, present@),
                roots@.len() == n,
                below(roots@, n as int),
                adj@.len() == n,
                lists_below(adj@, n as int),
                members@.len() == n,
                lists_below(members@, n as int),
                forall|r: int, k: int| 0 <= r < members@.len() && 0 <= k < members@[r]@.len() ==> present@[#[trigger] members@[r]@[k] as int],
                forall|x: int| 0 <= x < order@.len() ==> present@[#[trigger] order@[x] as int],
                below(order@, n as int),
                j <= order@.len(),
                forall|x: int| 0 <= x < hashes@.len() ==> self.has((#[trigger] hashes@[x]).1),
            decreases order@.len() - j,
        {
            let entry = order[j];
            proof {
                assert(present@[order@[j as int] as int]);
                assert forall|r: int, k: int| 0 <= r < members@.len() && 0 <= k < members@[r]@.len() implies self.has(#[trigger] members@[r]@[k]) by {
                    assert(below(members@[r]@, n as int));
                    assert(present@[members@[r]@[k] as int]);
                }
            }
            self.deduplicate_component(entry, &roots, &members, &adj, &mut map, &mut hashes);
            j += 1;
        }
        if self.check_mapping(&map) {
            self.apply_mapping(&map);
        } else {
            proof {
                assert(mapping_sound(&on_entry, identity)) by {
                    assert forall|i: usize| #[trigger] on_entry.has(i) implies remapped(on_entry.ins(identity[i as int]), identity) == remapped(on_entry.ins(i), identity) by {
                        assert(identity[i as int] == i);
                    }
                }
                assert forall|i: usize| #[trigger] on_entry.has(i) implies self.ins(i) == remapped(on_entry.ins(i), identity) by {
                    assert(on_entry.closed_at(i));
                    assert forall|k: int| 0 <= k < on_entry.ins(i).succs().len() implies #[trigger] on_entry.ins(i).succs()[k].0 < identity.len()
                        && identity[on_entry.ins(i).succs()[k].0 as int] == on_entry.ins(i).succs()[k].0 by {
                        assert(on_entry.has(on_entry.ins(i).succs()[k].0));
                    }
                    lemma_identity_remap(&on_entry, on_entry.ins(i), identity);
                }
                assert(on_entry.has(on_entry.start.0));
            }
        }
    }

    /// Merges series, labels and expected sets that are equal, then
    /// instructions that match alike, and removes what is left unused.
    pub(crate) fn deduplicate(&mut self)
        requires
            old(self).wf(),
        ensures
            final(self).wf(),
            exists|x: Parser, y: Parser| #[trigger] resources_merged(old(self), &x)
                && #[trigger] components_merged(&x, &y) && trimmed(&y, final(self)),
    {
        self.deduplicate_resources();
        let ghost x = *self;
        self.deduplicate_components();
        let ghost y = *self;
        self.trim();
        proof {
            assert(resources_merged(old(self), &x));
            assert(components_merged(&x, &y));
            assert(trimmed(&y, self));
        }
    }
}

/// `b` is `a` with its equal series, labels and expected sets merged: the
/// references of each instruction go to the first of equal ones.
pub(crate) open spec fn resources_merged(a: &Parser, b: &Parser) -> bool {
    &&& b.wf()
    &&& b.start == a.start
    &&& b.series == a.series
    &&& b.labels == a.labels
    &&& b.expecteds == a.expecteds
    &&& b.debug_symbols == a.debug_symbols
    &&& b.size() == a.size()
    &&& forall|i: usize| #[trigger] b.has(i) == a.has(i)
    &&& exists|c0: Seq<usize>, c1: Seq<usize>, c2: Seq<usize>|
        canonicals(series_views(&a.series), c0)
        && canonicals(label_views(&a.labels), c1)
        && canonicals(expected_views(&a.expecteds), c2)
        && forall|i: usize| #[trigger] a.has(i)
            ==> b.ins(i) == redirected(redirected(redirected(a.ins(i), 0, c0), 1, c1), 2, c2)
}

/// `b` is `a` with each instruction merged into its image under a sound
/// mapping: references and the start follow the mapping, and the debug
/// names of an instruction go to its image.
pub(crate) open spec fn components_merged(a: &Parser, b: &Parser) -> bool {
    &&& b.wf()
    &&& b.size() == a.size()
    &&& b.series == a.series
    &&& b.labels == a.labels
    &&& b.expecteds == a.expecteds
    &&& forall|i: usize| #[trigger] b.has(i) == a.has(i)
    &&& exists|m: Seq<usize>|
        #[trigger] mapping_sound(a, m)
        && b.start.0 == m[a.start.0 as int]
        && (forall|i: usize| #[trigger] a.has(i) ==> b.ins(i) == remapped(a.ins(i), m))
        && (forall|i: usize, k: Seq<u8>| #[trigger] a.has(i) && #[trigger] a.debug_symbols.value(i).names@.contains(k)
            ==> b.debug_symbols.value(m[i as int]).names@.contains(k))
}

/// `b` keeps exactly the instructions of `a` that its start reaches, as
/// they are, with their debug symbols.
pub(crate) open spec fn trimmed(a: &Parser, b: &Parser) -> bool {
    &&& b.wf()
    &&& b.start == a.start
    &&& b.size() == a.size()
    &&& forall|i: usize| #[trigger] b.has(i) == a.reachable(i)
    &&& forall|i: usize| #[trigger] b.has(i) ==> b.ins(i) == a.ins(i)
        && b.debug_symbols.value(i) == a.debug_symbols.value(i)
}

/// Once references are redirected along a sound mapping, an instruction
/// and the one it was merged into are the same instruction: merging never
/// joins instructions that behave differently.
pub proof fn law_merged_instructions_agree(old: &Parser, new: &Parser, m: Seq<usize>)
    requires
        mapping_sound(old, m),
        forall|i: usize| #[trigger] old.has(i) ==> new.ins(i) == remapped(old.ins(i), m),
    ensures
        forall|i: usize| #[trigger] old.has(i) ==> old.has(m[i as int]) && new.ins(m[i as int]) == new.ins(i),
{
    assert forall|i: usize| #[trigger] old.has(i) implies old.has(m[i as int]) && new.ins(m[i as int]) == new.ins(i) by {
        assert(old.has(m[i as int]));
    }
}

} // verus!
