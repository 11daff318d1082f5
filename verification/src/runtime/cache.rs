//! The results that a parser keeps of its cache points, by slot and input
//! position.
use crate::runtime::result::{Match, ParseResult};
use std::collections::BTreeMap;
use std::rc::Rc;
use vstd::prelude::*;

verus! {

broadcast use {vstd::laws_cmp::group_laws_cmp, vstd::std_specs::btree::axiom_maps_deref_key_to_value};

/// A kept result: a shared match, or how far a failure looked and its work.
pub enum Entry<L: Copy, E: Copy> {
    Matched(Rc<Match<L, E>>),
    Unmatched { scan_distance: u32, work: u32 },
}

/// The result that an entry stands for, as `Cache::get` hands it out:
/// a kept match comes back as an ungrouped span over it.
pub open spec fn restored<L: Copy, E: Copy>(entry: Entry<L, E>, result: ParseResult<L, E>) -> bool {
    match entry {
        Entry::Matched(m) => result matches ParseResult::Matched(r)
            && r.spec_scan_distance() == (*m).spec_scan_distance()
            && r.spec_work() == (*m).spec_work()
            && r.spec_distance() == (*m).spec_distance()
            && r.spec_error_distance() == (*m).spec_error_distance()
            && r.spec_grouping() is Ungrouped
            && r.spec_children() == seq![(0u32, *m)],
        Entry::Unmatched { scan_distance, work } => result == (ParseResult::<L, E>::Unmatched { scan_distance, work }),
    }
}

/// `entry` keeps `result`: the same match, or the same failure.
pub open spec fn keeps<L: Copy, E: Copy>(entry: Entry<L, E>, result: ParseResult<L, E>) -> bool {
    match result {
        ParseResult::Matched(m) => entry matches Entry::Matched(b) && *b == m,
        ParseResult::Unmatched { scan_distance, work } => entry == (Entry::<L, E>::Unmatched { scan_distance, work }),
    }
}

/// For each cache slot, the results kept at each position.
pub struct Cache<L: Copy, E: Copy> {
    mappings: Vec<BTreeMap<u32, Entry<L, E>>>,
}

impl<L: Copy, E: Copy> View for Cache<L, E> {
    type V = Seq<Map<u32, Entry<L, E>>>;

    closed spec fn view(&self) -> Seq<Map<u32, Entry<L, E>>> {
        self.mappings@.map_values(|m: BTreeMap<u32, Entry<L, E>>| m@)
    }
}

impl<L: Copy, E: Copy> Cache<L, E> {
    /// A cache with `slots` empty slots.
    pub fn new(slots: usize) -> (cache: Self)
        ensures
            cache@.len() == slots,
            forall|s: int| 0 <= s < slots ==> #[trigger] cache@[s] == Map::<u32, Entry<L, E>>::empty(),
    {
        let mut mappings: Vec<BTreeMap<u32, Entry<L, E>>> = Vec::new();
        while mappings.len() < slots
            invariant
                mappings@.len() <= slots,
                forall|s: int| 0 <= s < mappings@.len() ==> (#[trigger] mappings@[s])@ == Map::<u32, Entry<L, E>>::empty(),
            decreases slots - mappings@.len(),
        {
            mappings.push(BTreeMap::new());
        }
        let cache = Cache { mappings };
        assert(cache@.len() == slots);
        cache
    }

    /// The result kept in `slot` at `position`, if there is one.
    pub fn get(&self, slot: u32, position: u32) -> (result: Option<ParseResult<L, E>>)
        requires
            slot < self@.len(),
        ensures
            match result {
                Some(r) => self@[slot as int].contains_key(position) && restored(self@[slot as int][position], r),
                None => !self@[slot as int].contains_key(position),
            },
    {
        let slot_mappings = &self.mappings[slot as usize];
        match slot_mappings.get(&position) {
            Some(Entry::Matched(value)) => Some(ParseResult::Matched(Match::unboxed(value))),
            Some(Entry::Unmatched { scan_distance, work }) => Some(ParseResult::Unmatched { scan_distance: *scan_distance, work: *work }),
            None => None,
        }
    }

    /// Keeps `result` in `slot` at `position`, in place of what was kept
    /// there, and hands back the result to go on with: a kept match comes
    /// back as an ungrouped span over it.
    pub fn insert(&mut self, slot: u32, position: u32, result: ParseResult<L, E>) -> (out: ParseResult<L, E>)
        requires
            slot < old(self)@.len(),
        ensures
            final(self)@.len() == old(self)@.len(),
            forall|s: int| 0 <= s < old(self)@.len() && s != slot ==> #[trigger] final(self)@[s] == old(self)@[s],
            exists|e: Entry<L, E>| #[trigger] keeps(e, result) && restored(e, out)
                && final(self)@[slot as int] == old(self)@[slot as int].insert(position, e),
    {
        let ghost on_entry = self@;
        let (insertion, out) = match result {
            ParseResult::Matched(value) => {
                let boxed = value.boxed();
                let out = Match::unboxed(&boxed);
                (Entry::Matched(boxed), ParseResult::Matched(out))
            },
            ParseResult::Unmatched { scan_distance, work } => (
                Entry::Unmatched { scan_distance, work },
                ParseResult::Unmatched { scan_distance, work },
            ),
        };
        let ghost entry = insertion;
        let index = slot as usize;
        self.mappings.push(BTreeMap::new());
        let mut slot_mappings = self.mappings.swap_remove(index);
        slot_mappings.insert(position, insertion);
        self.mappings.set(index, slot_mappings);
        proof {
            assert forall|s: int| 0 <= s < on_entry.len() && s != slot implies #[trigger] self@[s] == on_entry[s] by {}
            assert(keeps(entry, result) && restored(entry, out));
            assert(self@[slot as int] == on_entry[slot as int].insert(position, entry));
        }
        out
    }
}

} // verus!
