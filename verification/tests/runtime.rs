use peg_pack::runtime::cache::Cache;
use peg_pack::runtime::stack::Stack;
use peg_pack::runtime::machine::{
    cache_end, cache_start, choice_end, choice_middle, error_end, first_choice_middle, label_end, not_ahead_end, series_end, seq_end,
    seq_middle, Step,
};
use peg_pack::runtime::result::{ErrorInfo, Grouping, Match, ParseMatch, ParseResult, VisitCall, VisitResult, Visitor};

type M = Match<u8, u16>;
type R = ParseResult<u8, u16>;

fn matched(distance: u32, scan: u32, work: u32) -> R {
    ParseResult::Matched(M::error_free(distance, scan, work))
}

fn unwrap(result: R) -> M {
    match result {
        ParseResult::Matched(m) => m,
        ParseResult::Unmatched { .. } => panic!("no match"),
    }
}

#[test]
fn combine_adds_spans_and_pools_children() {
    let first = M::error_free(3, 5, 2);
    let second = M::error_free(4, 6, 7);
    let both = M::combine(first, second);
    assert_eq!(both.distance(), 7);
    assert_eq!(both.scan_distance(), 9);
    assert_eq!(both.work(), 9);
    assert_eq!(both.error_distance(), None);
    assert_eq!(both.child_count(), 0);
    assert_eq!(both.grouping(), Grouping::Ungrouped);
}

#[test]
fn combine_keeps_grouped_parts_as_children() {
    let first = unwrap(matched(2, 2, 1).label(9));
    let second = unwrap(matched(3, 3, 1).mark_error(4));
    let both = M::combine(first, second);
    assert_eq!(both.child_count(), 2);
    let (offset, child) = both.child(1);
    assert_eq!(offset, 2);
    assert_eq!(child.grouping(), Grouping::Error(4));
    assert_eq!(both.child(0).1.label(), Some(9));
    assert_eq!(both.error_distance(), Some(2));
}

#[test]
fn combine_of_too_many_children_nests() {
    let mut node = M::combine(unwrap(matched(1, 1, 0).label(1)), unwrap(matched(1, 1, 0).label(2)));
    node = M::combine(node, M::combine(unwrap(matched(1, 1, 0).label(3)), unwrap(matched(1, 1, 0).label(4))));
    assert_eq!(node.child_count(), 4);
    let deeper = M::combine(node, unwrap(matched(1, 1, 0).label(5)));
    assert_eq!(deeper.child_count(), 2);
    assert_eq!(deeper.distance(), 5);
}

#[test]
fn negation_swaps_success_and_failure() {
    let failed: R = ParseResult::Unmatched { scan_distance: 4, work: 3 };
    let negated = failed.negate();
    assert!(negated.is_match());
    assert_eq!(negated.distance(), 0);
    assert_eq!(negated.scan_distance(), 4);
    assert!(negated.is_error_free());
    let again = negated.negate();
    assert!(!again.is_match());
    assert_eq!(again.error_distance(), Some(0));
}

#[test]
fn labels_wrap_grouped_matches() {
    let labelled = matched(2, 2, 0).label(1);
    let relabelled = unwrap(labelled.label(2));
    assert_eq!(relabelled.label(), Some(2));
    assert_eq!(relabelled.child_count(), 1);
    assert_eq!(relabelled.child(0).1.label(), Some(1));
    let plain = unwrap(matched(2, 2, 0).label(3));
    assert_eq!(plain.child_count(), 0);
}

#[test]
fn sequence_steps() {
    match seq_middle(matched(1, 1, 1)) {
        Step::Continue(r) => assert!(r.is_match()),
        Step::Finish(_) => panic!("finished"),
    }
    match seq_middle::<u8, u16>(ParseResult::Unmatched { scan_distance: 2, work: 4 }) {
        Step::Finish(r) => assert_eq!(r.work(), 5),
        Step::Continue(_) => panic!("continued"),
    }
    let (position, result) = seq_end(10, M::error_free(3, 3, 1), ParseResult::Unmatched { scan_distance: 4, work: 2 });
    assert_eq!(position, 7);
    assert!(!result.is_match());
    assert_eq!(result.scan_distance(), 7);
    assert_eq!(result.work(), 4);
    let (position, result) = seq_end(10, M::error_free(3, 3, 1), matched(2, 2, 1));
    assert_eq!(position, 10);
    assert_eq!(result.distance(), 5);
    assert_eq!(result.work(), 3);
}

#[test]
fn choice_keeps_the_branch_whose_error_comes_later() {
    let first = matched(4, 4, 1).mark_error(7);
    let (position, step) = choice_middle(14, first);
    assert_eq!(position, 10);
    let first = match step {
        Step::Continue(r) => r,
        Step::Finish(_) => panic!("finished"),
    };
    let (position, kept) = choice_end(12, first, matched(2, 2, 1));
    assert_eq!(position, 12);
    assert_eq!(kept.distance(), 2);
    assert_eq!(kept.work(), 3);
    assert!(kept.is_error_free());
    let (position, kept) = choice_end(10, matched(4, 4, 1).mark_error(7), ParseResult::Unmatched { scan_distance: 9, work: 1 });
    assert_eq!(position, 14);
    assert_eq!(kept.distance(), 4);
    assert_eq!(kept.scan_distance(), 9);
}

#[test]
fn an_error_free_first_branch_is_taken_at_once() {
    let (position, step) = choice_middle(5, matched(2, 3, 1));
    assert_eq!(position, 5);
    match step {
        Step::Finish(r) => assert_eq!(r.work(), 2),
        Step::Continue(_) => panic!("continued"),
    }
}

#[test]
fn first_choice_and_not_ahead() {
    let (position, taken) = first_choice_middle(6, matched(2, 2, 1));
    assert_eq!(position, 6);
    assert_eq!(taken.unwrap().work(), 2);
    let (position, taken) = first_choice_middle::<u8, u16>(6, ParseResult::Unmatched { scan_distance: 1, work: 1 });
    assert_eq!(position, 6);
    assert!(taken.is_none());
    let (position, result) = not_ahead_end(6, matched(2, 2, 1));
    assert_eq!(position, 4);
    assert!(!result.is_match());
    assert_eq!(result.work(), 2);
}

#[test]
fn marking_labelling_series_and_cache() {
    let marked = error_end(matched(2, 2, 0), 3);
    assert_eq!(marked.error_distance(), Some(0));
    assert_eq!(marked.work(), 50);
    let labelled = label_end(matched(2, 2, 0), 1);
    assert_eq!(labelled.work(), 50);
    assert!(labelled.is_error_free());
    let (position, result) = series_end::<u8, u16>(3, true, 2);
    assert_eq!(position, 5);
    assert_eq!(result.distance(), 2);
    assert_eq!(result.work(), 1);
    let (position, result) = series_end::<u8, u16>(3, false, 2);
    assert_eq!(position, 3);
    assert_eq!(result.scan_distance(), 2);
}

#[test]
fn cache_points_keep_expensive_results() {
    let mut cache: Cache<u8, u16> = Cache::new(2);
    let result = cache_end(&mut cache, 1, 10, matched(4, 4, 300));
    assert_eq!(result.work(), 25);
    assert_eq!(result.distance(), 4);
    let (position, taken) = cache_start(&cache, 1, 6).unwrap();
    assert_eq!(position, 10);
    assert_eq!(taken.work(), 25);
    assert_eq!(taken.distance(), 4);
    assert!(cache_start(&cache, 0, 6).is_none());
    assert!(cache_start(&cache, 1, 7).is_none());
    let result = cache_end(&mut cache, 0, 10, matched(4, 4, 250));
    assert_eq!(result.work(), 250);
    assert!(cache_start(&cache, 0, 6).is_none());
}

#[test]
fn cache_keeps_failures_as_they_are() {
    let mut cache: Cache<u8, u16> = Cache::new(1);
    let back = cache.insert(0, 3, ParseResult::Unmatched { scan_distance: 2, work: 7 });
    assert!(!back.is_match());
    match cache.get(0, 3) {
        Some(ParseResult::Unmatched { scan_distance, work }) => {
            assert_eq!(scan_distance, 2);
            assert_eq!(work, 7);
        }
        _ => panic!("not kept"),
    }
    assert!(cache.get(0, 4).is_none());
}

struct Recorder {
    events: Vec<String>,
    skip: Option<u8>,
    stop: Option<u8>,
}

impl Visitor<u8, u16> for Recorder {
    // The record of calls exists for the proofs only; it is never computed.
    fn calls(&self) -> vstd::seq::Seq<VisitCall<u8, u16>> {
        unreachable!()
    }

    fn enter(&mut self, label: u8, position: u32, length: u32, has_error: bool) -> VisitResult {
        self.events.push(format!("enter {} {} {} {}", label, position, length, has_error));
        if self.stop == Some(label) {
            VisitResult::Exit
        } else if self.skip == Some(label) {
            VisitResult::Skip
        } else {
            VisitResult::Continue
        }
    }

    fn exit(&mut self, label: u8, position: u32, length: u32, has_error: bool) {
        self.events.push(format!("exit {} {} {} {}", label, position, length, has_error));
    }

    fn enter_error(&mut self, expected: u16, position: u32, length: u32) -> VisitResult {
        self.events.push(format!("enter_error {} {} {}", expected, position, length));
        VisitResult::Continue
    }

    fn exit_error(&mut self, expected: u16, position: u32, length: u32) {
        self.events.push(format!("exit_error {} {} {}", expected, position, length));
    }
}

/// `outer[ inner[2] err[3] ]` over five bytes.
fn sample() -> ParseMatch<u8, u16> {
    let inner = unwrap(matched(2, 2, 1).label(2));
    let error = unwrap(matched(3, 3, 1).mark_error(7));
    let outer = unwrap(ParseResult::Matched(M::combine(inner, error)).label(1));
    ParseMatch::new(outer)
}

#[test]
fn visiting_walks_labelled_and_erroneous_spans() {
    let parse = sample();
    let mut recorder = Recorder { events: Vec::new(), skip: None, stop: None };
    parse.visit(&mut recorder);
    assert_eq!(
        recorder.events,
        vec![
            "enter 1 0 5 true",
            "enter 2 0 2 false",
            "exit 2 0 2 false",
            "enter_error 7 2 3",
            "exit_error 7 2 3",
            "exit 1 0 5 true",
        ]
    );
}

#[test]
fn visiting_can_skip_and_stop() {
    let parse = sample();
    let mut skipping = Recorder { events: Vec::new(), skip: Some(1), stop: None };
    parse.visit(&mut skipping);
    assert_eq!(skipping.events, vec!["enter 1 0 5 true"]);
    let mut stopping = Recorder { events: Vec::new(), skip: None, stop: Some(2) };
    parse.root().visit(&mut stopping);
    assert_eq!(stopping.events, vec!["enter 1 0 5 true", "enter 2 0 2 false"]);
}

#[test]
fn parse_root_and_errors() {
    let parse = sample();
    let root = parse.root();
    assert_eq!(root.grouping(), Grouping::Ungrouped);
    assert_eq!(root.position(), 0);
    assert_eq!(root.length(), 5);
    assert!(root.has_error());
    assert_eq!(root.label(), None);
    assert_eq!(parse.unmerged_errors(), vec![ErrorInfo { expected: 7, position: 2, length: 3 }]);
    let clean = ParseMatch::new(M::error_free(4, 4, 1));
    assert!(clean.unmerged_errors().is_empty());
}

#[test]
fn stacks_pop_the_last_pushed() {
    let mut stack = Stack::of(1);
    stack.push(2);
    assert_eq!(stack.top(), Some(&2));
    assert_eq!(stack.pop(), Some(2));
    assert_eq!(stack.pop(), Some(1));
    assert_eq!(stack.pop(), None);
    assert_eq!(stack.top(), None);
}
