//! The decisions of the parsing machine that generated parsers run: what
//! each instruction makes of the results of its parts, and where the input
//! position ends up.
use crate::runtime::cache::{keeps, restored, Cache, Entry};
use crate::runtime::result::{Match, ParseResult};
use crate::runtime::work::{CACHE_WORK, CHOICE_WORK, LABEL_WORK, MARK_ERROR_WORK, MAX_UNCACHED_WORK, NOT_AHEAD_WORK, SEQ_WORK, SERIES_WORK};
use vstd::prelude::*;

verus! {

/// `r` covers the same span as `base`: both match or both fail, alike but
/// for how far the parser looked and the work.
pub open spec fn same_span<L: Copy, E: Copy>(r: ParseResult<L, E>, base: ParseResult<L, E>) -> bool {
    &&& (r is Matched) == (base is Matched)
    &&& r.spec_distance() == base.spec_distance()
    &&& r.spec_error_distance() == base.spec_error_distance()
    &&& (base matches ParseResult::Matched(m) ==> r matches ParseResult::Matched(n)
        && n.spec_grouping() == m.spec_grouping() && n.spec_children() == m.spec_children())
}

/// The larger of two.
pub open spec fn larger(a: int, b: int) -> int {
    if a >= b { a } else { b }
}

/// What an instruction does once a part of it has run.
pub enum Step<L: Copy, E: Copy> {
    /// Run the next part, keeping this result aside.
    Continue(ParseResult<L, E>),
    /// The instruction is done, with this result.
    Finish(ParseResult<L, E>),
}

/// `result`, marked as `step`, and with `amount` more work where the
/// instruction finishes.
pub open spec fn step_of<L: Copy, E: Copy>(step: Step<L, E>, result: ParseResult<L, E>, finish: bool, amount: u32) -> bool {
    if finish {
        step matches Step::Finish(r) && same_span(r, result) && r.spec_scan_distance() == result.spec_scan_distance()
            && r.spec_work() == result.spec_work() + amount
    } else {
        step == Step::Continue(result)
    }
}

/// A sequence after its first part: it goes on to the second part after a
/// match, and fails with one more step of work otherwise.
pub fn seq_middle<L: Copy, E: Copy>(first: ParseResult<L, E>) -> (step: Step<L, E>)
    requires
        first.spec_work() + SEQ_WORK <= u32::MAX,
    ensures
        step_of(step, first, !(first is Matched), SEQ_WORK),
{
    if first.is_match() {
        Step::Continue(first)
    } else {
        Step::Finish(first.add_work(SEQ_WORK))
    }
}

/// A sequence after both parts, at `position`: the two matches combined,
/// or a failure that goes back to where the sequence started and looked as
/// far as either part.
pub fn seq_end<L: Copy, E: Copy>(position: u32, first: Match<L, E>, second: ParseResult<L, E>) -> (out: (u32, ParseResult<L, E>))
    requires
        first.spec_distance() + second.spec_scan_distance() <= u32::MAX,
        first.spec_distance() + second.spec_distance() <= u32::MAX,
        first.spec_work() + second.spec_work() + SEQ_WORK <= u32::MAX,
        second is Unmatched ==> position >= first.spec_distance(),
    ensures
        second is Matched ==> out.0 == position && (out.1 matches ParseResult::Matched(m)
            && m.spec_distance() == first.spec_distance() + second.spec_distance()
            && m.spec_work() == first.spec_work() + second.spec_work() + SEQ_WORK
            && m.spec_scan_distance() == larger(first.spec_scan_distance() as int, first.spec_distance() + second.spec_scan_distance())
            && m.spec_error_distance() == match first.spec_error_distance() {
                Some(d) => Some(d),
                None => match second.spec_error_distance() {
                    Some(d) => Some((first.spec_distance() + d) as u32),
                    None => None,
                },
            }),
        second is Unmatched ==> out.0 == position - first.spec_distance()
            && out.1 == (ParseResult::<L, E>::Unmatched {
                scan_distance: larger(first.spec_scan_distance() as int, first.spec_distance() + second.spec_scan_distance()) as u32,
                work: (first.spec_work() + second.spec_work() + SEQ_WORK) as u32,
            }),
{
    match second {
        ParseResult::Matched(second) => {
            let combined = Match::combine(first, second);
            (position, ParseResult::Matched(combined.add_work(SEQ_WORK)))
        },
        ParseResult::Unmatched { scan_distance, work } => {
            let reach = first.distance() + scan_distance;
            let scan = if first.scan_distance() >= reach { first.scan_distance() } else { reach };
            let total = work + first.work() + SEQ_WORK;
            (position - first.distance(), ParseResult::Unmatched { scan_distance: scan, work: total })
        },
    }
}

/// A choice after its first branch, at `position`: a match without errors
/// is taken, with one more step of work; otherwise the position goes back
/// to where the choice started and the second branch runs.
pub fn choice_middle<L: Copy, E: Copy>(position: u32, first: ParseResult<L, E>) -> (out: (u32, Step<L, E>))
    requires
        first.spec_work() + CHOICE_WORK <= u32::MAX,
        position >= first.spec_distance(),
    ensures
        step_of(out.1, first, first.spec_error_distance() is None, CHOICE_WORK),
        out.0 == if first.spec_error_distance() is None { position as int } else { position - first.spec_distance() },
{
    if first.is_error_free() {
        (position, Step::Finish(first.add_work(CHOICE_WORK)))
    } else {
        let back = position - first.distance();
        (back, Step::Continue(first))
    }
}

/// Which branch a choice keeps: the second when the first fails, the
/// first when the second fails; when both match, the second when it has
/// no error, the first when only the second has one, and otherwise the
/// second exactly when the first error of the first lies further from
/// the start than that of the second.
pub open spec fn keeps_second<L: Copy, E: Copy>(first: ParseResult<L, E>, second: ParseResult<L, E>) -> bool {
    if !(first is Matched) {
        true
    } else if !(second is Matched) {
        false
    } else {
        match second.spec_error_distance() {
            Some(s) => match first.spec_error_distance() {
                Some(f) => f > s,
                None => false,
            },
            None => true,
        }
    }
}

/// A choice keeps the second branch when the first fails and the first
/// when only the second fails. When both match: with no error in the
/// second it keeps the second; with an error in the second alone it keeps
/// the first; with errors in both, at distances `f` in the first and `s`
/// in the second, it keeps the second exactly when `f > s`.
pub proof fn lemma_choice_keeps<L: Copy, E: Copy>(first: ParseResult<L, E>, second: ParseResult<L, E>)
    ensures
        !(first is Matched) ==> keeps_second(first, second),
        first is Matched && !(second is Matched) ==> !keeps_second(first, second),
        first is Matched && second is Matched && second.spec_error_distance() is None ==> keeps_second(first, second),
        first is Matched && second is Matched && first.spec_error_distance() is None && second.spec_error_distance() is Some
            ==> !keeps_second(first, second),
        first is Matched && second is Matched && first.spec_error_distance() is Some && second.spec_error_distance() is Some
            ==> (keeps_second(first, second) <==> first.spec_error_distance()->0 > second.spec_error_distance()->0),
{
}

/// A choice after both branches, at `position`: the branch it keeps,
/// looking as far as either and with the work of both and one more step.
/// The position ends where the kept branch ends.
pub fn choice_end<L: Copy, E: Copy>(position: u32, first: ParseResult<L, E>, second: ParseResult<L, E>) -> (out: (u32, ParseResult<L, E>))
    requires
        first.spec_work() + second.spec_work() + CHOICE_WORK <= u32::MAX,
        first is Matched ==> first.spec_error_distance() is Some,
        first is Matched && second is Unmatched ==> position + first.spec_distance() <= u32::MAX,
        first is Matched && second is Matched ==> position >= second.spec_distance()
            && position - second.spec_distance() + first.spec_distance() <= u32::MAX,
    ensures
        keeps_second(first, second) ==> same_span(out.1, second)
            && out.1.spec_scan_distance() == larger(second.spec_scan_distance() as int, first.spec_scan_distance() as int),
        !keeps_second(first, second) ==> same_span(out.1, first)
            && out.1.spec_scan_distance() == larger(first.spec_scan_distance() as int, second.spec_scan_distance() as int),
        out.1.spec_work() == first.spec_work() + second.spec_work() + CHOICE_WORK,
        out.0 == if !(first is Matched) {
            position as int
        } else if !(second is Matched) {
            position + first.spec_distance()
        } else if keeps_second(first, second) {
            position as int
        } else {
            position - second.spec_distance() + first.spec_distance()
        },
{
    let work = first.work() + second.work() + CHOICE_WORK;
    if !first.is_match() {
        let scan = first.scan_distance();
        return (position, second.extend_scan_distance(scan).with_work(work));
    }
    let first = first.unwrap_match();
    if !second.is_match() {
        let moved = position + first.distance();
        let scan = second.scan_distance();
        return (moved, ParseResult::Matched(first.extend_scan_distance(scan).with_work(work)));
    }
    let second = second.unwrap_match();
    let first_error = first.error_distance();
    let use_second = match second.error_distance() {
        Some(second_error) => match first_error {
            Some(f) => f > second_error,
            None => false,
        },
        None => true,
    };
    if use_second {
        let scan = first.scan_distance();
        (position, ParseResult::Matched(second.extend_scan_distance(scan).with_work(work)))
    } else {
        let moved = position - second.distance() + first.distance();
        let scan = second.scan_distance();
        (moved, ParseResult::Matched(first.extend_scan_distance(scan).with_work(work)))
    }
}

/// A first choice after its first branch, at `position`: a match is
/// taken with one more step of work; otherwise the position goes back and
/// the second branch runs in the choice's place.
pub fn first_choice_middle<L: Copy, E: Copy>(position: u32, first: ParseResult<L, E>) -> (out: (u32, Option<ParseResult<L, E>>))
    requires
        first.spec_work() + CHOICE_WORK <= u32::MAX,
        position >= first.spec_distance(),
    ensures
        first is Matched ==> out.0 == position && (out.1 matches Some(r) && same_span(r, first)
            && r.spec_scan_distance() == first.spec_scan_distance() && r.spec_work() == first.spec_work() + CHOICE_WORK),
        first is Unmatched ==> out.0 == position - first.spec_distance() && out.1 is None,
{
    if first.is_match() {
        (position, Some(first.add_work(CHOICE_WORK)))
    } else {
        let back = position - first.distance();
        (back, None)
    }
}

/// A not-ahead after its target, at `position`: back to where it started,
/// with the target's result negated and one more step of work.
pub fn not_ahead_end<L: Copy, E: Copy>(position: u32, target: ParseResult<L, E>) -> (out: (u32, ParseResult<L, E>))
    requires
        target.spec_work() + NOT_AHEAD_WORK <= u32::MAX,
        position >= target.spec_distance(),
    ensures
        out.0 == position - target.spec_distance(),
        (out.1 is Matched) == (target is Unmatched),
        out.1.spec_distance() == 0,
        out.1.spec_scan_distance() == target.spec_scan_distance(),
        out.1.spec_work() == target.spec_work() + NOT_AHEAD_WORK,
        out.1.spec_error_distance() == if target is Matched { Some(0u32) } else { None },
{
    let back = position - target.distance();
    (back, target.negate().add_work(NOT_AHEAD_WORK))
}

/// An error instruction after its target: the match marked as an error
/// that expected `expected`.
pub fn error_end<L: Copy, E: Copy>(target: ParseResult<L, E>, expected: E) -> (result: ParseResult<L, E>)
    requires
        target.spec_work() + MARK_ERROR_WORK <= u32::MAX,
    ensures
        (result is Matched) == (target is Matched),
        result.spec_distance() == target.spec_distance(),
        result.spec_scan_distance() == target.spec_scan_distance(),
        result.spec_work() == target.spec_work() + MARK_ERROR_WORK,
        result.spec_error_distance() == Some(0u32),
        result matches ParseResult::Matched(m) ==> m.spec_grouping() == crate::runtime::result::Grouping::<L, E>::Error(expected),
{
    target.mark_error(expected).add_work(MARK_ERROR_WORK)
}

/// A label instruction after its target: the match labelled `label`.
pub fn label_end<L: Copy, E: Copy>(target: ParseResult<L, E>, label: L) -> (result: ParseResult<L, E>)
    requires
        target.spec_work() + LABEL_WORK <= u32::MAX,
    ensures
        (result is Matched) == (target is Matched),
        result.spec_distance() == target.spec_distance(),
        result.spec_scan_distance() == target.spec_scan_distance(),
        result.spec_work() == target.spec_work() + LABEL_WORK,
        result.spec_error_distance() == target.spec_error_distance(),
        result matches ParseResult::Matched(m) ==> m.spec_grouping() == crate::runtime::result::Grouping::<L, E>::Label(label),
{
    target.label(label).add_work(LABEL_WORK)
}

/// A series at `position` whose matcher answered `matched` after looking
/// at `length` bytes: a match of that length, or a failure that looked that
/// far.
pub fn series_end<L: Copy, E: Copy>(position: u32, matched: bool, length: u32) -> (out: (u32, ParseResult<L, E>))
    requires
        matched ==> position + length <= u32::MAX,
    ensures
        matched ==> out.0 == position + length && (out.1 matches ParseResult::Matched(m)
            && m.spec_distance() == length && m.spec_scan_distance() == length && m.spec_work() == SERIES_WORK
            && m.spec_error_distance() is None && m.spec_children().len() == 0),
        !matched ==> out.0 == position && out.1 == (ParseResult::<L, E>::Unmatched { scan_distance: length, work: SERIES_WORK }),
{
    if matched {
        (position + length, ParseResult::Matched(Match::error_free(length, length, SERIES_WORK)))
    } else {
        (position, ParseResult::Unmatched { scan_distance: length, work: SERIES_WORK })
    }
}

/// A cache point before its target, at `position`: a result kept in
/// `slot` at this position is taken at once, and the position moves past
/// it; otherwise the target runs.
pub fn cache_start<L: Copy, E: Copy>(cache: &Cache<L, E>, slot: u32, position: u32) -> (out: Option<(u32, ParseResult<L, E>)>)
    requires
        slot < cache@.len(),
        cache@[slot as int].contains_key(position) ==> match cache@[slot as int][position] {
            Entry::Matched(m) => position + (*m).spec_distance() <= u32::MAX,
            Entry::Unmatched { .. } => true,
        },
    ensures
        match out {
            Some(taken) => cache@[slot as int].contains_key(position) && restored(cache@[slot as int][position], taken.1)
                && taken.0 == position + taken.1.spec_distance(),
            None => !cache@[slot as int].contains_key(position),
        },
{
    match cache.get(slot, position) {
        Some(result) => {
            let moved = position + result.distance();
            Some((moved, result))
        },
        None => None,
    }
}

/// A cache point after its target, at `position`: a result that took more
/// than `MAX_UNCACHED_WORK` is kept in `slot` at the position where the
/// target started, counting only the work of the cache from then on, and
/// the parser goes on with what the cache hands back; a cheaper result is
/// neither kept nor changed.
pub fn cache_end<L: Copy, E: Copy>(cache: &mut Cache<L, E>, slot: u32, position: u32, target: ParseResult<L, E>) -> (result: ParseResult<L, E>)
    requires
        slot < old(cache)@.len(),
        position >= target.spec_distance(),
    ensures
        final(cache)@.len() == old(cache)@.len(),
        target.spec_work() <= MAX_UNCACHED_WORK ==> result == target && final(cache)@ == old(cache)@,
        target.spec_work() > MAX_UNCACHED_WORK ==> {
            &&& forall|s: int| 0 <= s < old(cache)@.len() && s != slot ==> #[trigger] final(cache)@[s] == old(cache)@[s]
            &&& exists|e: Entry<L, E>| #[trigger] restored(e, result)
                && final(cache)@[slot as int] == old(cache)@[slot as int].insert((position - target.spec_distance()) as u32, e)
                && match e {
                    Entry::Matched(m) => target matches ParseResult::Matched(t) && (*m).spec_work() == CACHE_WORK
                        && (*m).spec_distance() == t.spec_distance() && (*m).spec_scan_distance() == t.spec_scan_distance()
                        && (*m).spec_error_distance() == t.spec_error_distance() && (*m).spec_grouping() == t.spec_grouping()
                        && (*m).spec_children() == t.spec_children(),
                    Entry::Unmatched { scan_distance, work } => target is Unmatched
                        && scan_distance == target.spec_scan_distance() && work == CACHE_WORK,
                }
        },
{
    if target.work() > MAX_UNCACHED_WORK {
        let start = position - target.distance();
        let reduced = target.with_work(CACHE_WORK);
        let ghost before = reduced;
        let result = cache.insert(slot, start, reduced);
        proof {
            let e = choose|e: Entry<L, E>| #[trigger] keeps(e, before) && restored(e, result)
                && cache@[slot as int] == old(cache)@[slot as int].insert(start, e);
            assert(restored(e, result));
        }
        result
    } else {
        target
    }
}

} // verus!
