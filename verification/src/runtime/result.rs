//! The results of parsing: a match is a tree of spans, each of which may be
//! labelled or marked as an error.
use std::rc::Rc;
use vstd::prelude::*;

verus! {

/// The most children a match holds.
pub const MATCH_CHILDREN: usize = 4;

/// Whether a span is labelled, marked as an error, or neither.
#[derive(Debug, Copy, Clone, PartialEq, Eq)]
pub enum Grouping<L, E> {
    Ungrouped,
    Label(L),
    Error(E),
}

impl<L: Copy, E: Copy> Grouping<L, E> {
    /// Whether the span is neither labelled nor an error.
    pub fn is_ungrouped(&self) -> (ungrouped: bool)
        ensures
            ungrouped == (*self is Ungrouped),
    {
        match self {
            Grouping::Ungrouped => true,
            _ => false,
        }
    }
}

/// Another pointer to the same value (`Rc::clone`): the documentation
/// says that it points to the same allocation.
#[verifier::external_body]
fn share<T>(rc: &Rc<T>) -> (res: Rc<T>)
    ensures
        *res == **rc,
{
    Rc::clone(rc)
}


/// What a visitor wants done after entering a labelled or erroneous span.
#[derive(Debug, Copy, Clone, PartialEq, Eq, Structural)]
pub enum VisitResult {
    /// Descend into the span.
    Continue,
    /// Skip over the span, without calling `exit`.
    Skip,
    /// Stop visiting at once.
    Exit,
}

/// A call made to a visitor, with its arguments and, for the calls that
/// enter a span, what the visitor answered.
pub enum VisitCall<L, E> {
    Enter(L, u32, u32, bool, VisitResult),
    Exit(L, u32, u32, bool),
    EnterError(E, u32, u32, VisitResult),
    ExitError(E, u32, u32),
}

/// Callbacks for the labelled and erroneous spans of a match, outermost
/// first, for users of a parser to implement. `calls` is the record of
/// the calls made to the visitor so far; each call adds itself to it.
pub trait Visitor<L, E> {
    spec fn calls(&self) -> Seq<VisitCall<L, E>>;

    fn enter(&mut self, label: L, position: u32, length: u32, has_error: bool) -> (answer: VisitResult)
        ensures
            final(self).calls() == old(self).calls().push(VisitCall::Enter(label, position, length, has_error, answer));

    fn exit(&mut self, label: L, position: u32, length: u32, has_error: bool)
        ensures
            final(self).calls() == old(self).calls().push(VisitCall::Exit(label, position, length, has_error));

    fn enter_error(&mut self, expected: E, position: u32, length: u32) -> (answer: VisitResult)
        ensures
            final(self).calls() == old(self).calls().push(VisitCall::EnterError(expected, position, length, answer));

    fn exit_error(&mut self, expected: E, position: u32, length: u32)
        ensures
            final(self).calls() == old(self).calls().push(VisitCall::ExitError(expected, position, length));
}

/// Reading the calls of `t` from index `at` as the visit of `m`, which
/// starts at `position`: the index after them and whether the visitor
/// asked to stop, or `None` where they are not the calls that the visit
/// makes. A labelled or erroneous span is entered; on `Exit` the visit
/// stops, on `Skip` it passes over the span without a call for its inside
/// or its exit; otherwise its children are visited in order and the span
/// is left, unless a child's visit stopped.
pub open spec fn visit_calls<L: Copy, E: Copy>(m: Match<L, E>, position: u32, t: Seq<VisitCall<L, E>>, at: int) -> Option<(int, bool)>
    decreases m, 1int, 0int,
{
    let length = m.spec_distance();
    let has_error = m.spec_error_distance() is Some;
    if !(0 <= at < t.len()) && !(m.spec_grouping() is Ungrouped) {
        None
    } else {
        match m.spec_grouping() {
            Grouping::Label(l) => match t[at] {
                VisitCall::Enter(l2, p2, d2, h2, answer) => if l2 == l && p2 == position && d2 == length && h2 == has_error {
                    span_calls(m, position, t, at, answer, VisitCall::<L, E>::Exit(l, position, length, has_error))
                } else {
                    None
                },
                _ => None,
            },
            Grouping::Error(e) => match t[at] {
                VisitCall::EnterError(e2, p2, d2, answer) => if e2 == e && p2 == position && d2 == length {
                    span_calls(m, position, t, at, answer, VisitCall::<L, E>::ExitError(e, position, length))
                } else {
                    None
                },
                _ => None,
            },
            Grouping::Ungrouped => children_calls(m, position, t, at, m.spec_children().len() as int),
        }
    }
}

/// Reading the calls of `t` after the call at `at` that entered `m` and
/// was answered `answer`, where `leave` is the call that leaves it.
pub open spec fn span_calls<L: Copy, E: Copy>(m: Match<L, E>, position: u32, t: Seq<VisitCall<L, E>>, at: int, answer: VisitResult, leave: VisitCall<L, E>) -> Option<(int, bool)>
    decreases m, 0int, m.spec_children().len() + 1,
{
    match answer {
        VisitResult::Exit => Some((at + 1, true)),
        VisitResult::Skip => Some((at + 1, false)),
        VisitResult::Continue => match children_calls(m, position, t, at + 1, m.spec_children().len() as int) {
            Some((a, true)) => Some((a, true)),
            Some((a, false)) => if 0 <= a < t.len() && t[a] == leave {
                Some((a + 1, false))
            } else {
                None
            },
            None => None,
        },
    }
}

/// Reading the calls of `t` from index `at` as the visits of the first
/// `j` children of `m`, in order, until one of them stops.
pub open spec fn children_calls<L: Copy, E: Copy>(m: Match<L, E>, position: u32, t: Seq<VisitCall<L, E>>, at: int, j: int) -> Option<(int, bool)>
    decreases m, 0int, j,
{
    if j <= 0 || j > m.spec_children().len() {
        Some((at, false))
    } else {
        match children_calls(m, position, t, at, j - 1) {
            Some((a, false)) => {
                proof {
                    Match::lemma_child_smaller(m, j - 1);
                }
                visit_calls(m.spec_children()[j - 1].1, (position + m.spec_children()[j - 1].0) as u32, t, a)
            },
            other => other,
        }
    }
}


/// `t2` starts with the calls of `t`.
pub open spec fn extends<L, E>(t: Seq<VisitCall<L, E>>, t2: Seq<VisitCall<L, E>>) -> bool {
    t.len() <= t2.len() && forall|k: int| 0 <= k < t.len() ==> #[trigger] t2[k] == t[k]
}

/// Reading a visit from calls stays the same when more calls follow, and
/// ends within the calls read.
pub proof fn lemma_visit_calls_extend<L: Copy, E: Copy>(m: Match<L, E>, position: u32, t: Seq<VisitCall<L, E>>, t2: Seq<VisitCall<L, E>>, at: int)
    requires
        0 <= at <= t.len(),
        extends(t, t2),
        visit_calls(m, position, t, at) is Some,
    ensures
        visit_calls(m, position, t2, at) == visit_calls(m, position, t, at),
        at <= visit_calls(m, position, t, at).unwrap().0 <= t.len(),
    decreases m, 1int, 0int,
{
    match m.spec_grouping() {
        Grouping::Label(l) => {
            assert(t2[at] == t[at]);
            if let VisitCall::Enter(_, _, _, _, answer) = t[at] {
                lemma_span_calls_extend(m, position, t, t2, at, answer, VisitCall::<L, E>::Exit(l, position, m.spec_distance(), m.spec_error_distance() is Some));
            }
        },
        Grouping::Error(e) => {
            assert(t2[at] == t[at]);
            if let VisitCall::EnterError(_, _, _, answer) = t[at] {
                lemma_span_calls_extend(m, position, t, t2, at, answer, VisitCall::<L, E>::ExitError(e, position, m.spec_distance()));
            }
        },
        Grouping::Ungrouped => {
            lemma_children_calls_extend(m, position, t, t2, at, m.spec_children().len() as int);
        },
    }
}

/// [`lemma_visit_calls_extend`] for the calls after entering a span.
pub proof fn lemma_span_calls_extend<L: Copy, E: Copy>(m: Match<L, E>, position: u32, t: Seq<VisitCall<L, E>>, t2: Seq<VisitCall<L, E>>, at: int, answer: VisitResult, leave: VisitCall<L, E>)
    requires
        0 <= at < t.len(),
        extends(t, t2),
        span_calls(m, position, t, at, answer, leave) is Some,
    ensures
        span_calls(m, position, t2, at, answer, leave) == span_calls(m, position, t, at, answer, leave),
        at < span_calls(m, position, t, at, answer, leave).unwrap().0 <= t.len(),
    decreases m, 0int, m.spec_children().len() + 1,
{
    if answer is Continue {
        lemma_children_calls_extend(m, position, t, t2, at + 1, m.spec_children().len() as int);
        match children_calls(m, position, t, at + 1, m.spec_children().len() as int) {
            Some((a, false)) => {
                assert(t2[a] == t[a]);
            },
            _ => {},
        }
    }
}

/// [`lemma_visit_calls_extend`] for the visits of the first `j` children.
pub proof fn lemma_children_calls_extend<L: Copy, E: Copy>(m: Match<L, E>, position: u32, t: Seq<VisitCall<L, E>>, t2: Seq<VisitCall<L, E>>, at: int, j: int)
    requires
        0 <= at <= t.len(),
        extends(t, t2),
        children_calls(m, position, t, at, j) is Some,
    ensures
        children_calls(m, position, t2, at, j) == children_calls(m, position, t, at, j),
        at <= children_calls(m, position, t, at, j).unwrap().0 <= t.len(),
    decreases m, 0int, j,
{
    if 0 < j <= m.spec_children().len() {
        lemma_children_calls_extend(m, position, t, t2, at, j - 1);
        match children_calls(m, position, t, at, j - 1) {
            Some((a, false)) => {
                Match::lemma_child_smaller(m, j - 1);
                lemma_visit_calls_extend(m.spec_children()[j - 1].1, (position + m.spec_children()[j - 1].0) as u32, t, t2, a);
            },
            _ => {},
        }
    }
}

/// Once a child's visit stops, the visits of the children read no more.
pub proof fn lemma_children_calls_stop<L: Copy, E: Copy>(m: Match<L, E>, position: u32, t: Seq<VisitCall<L, E>>, at: int, j: int, k: int)
    requires
        children_calls(m, position, t, at, j) matches Some((_, true)),
        j <= k <= m.spec_children().len(),
    ensures
        children_calls(m, position, t, at, k) == children_calls(m, position, t, at, j),
    decreases k - j,
{
    if k > j {
        lemma_children_calls_stop(m, position, t, at, j, k - 1);
    }
}

/// The erroneous spans of `m`, which starts at `position`, outermost first
/// and in the order of the input; spans without errors are passed over.
pub open spec fn errors_of<L: Copy, E: Copy>(m: Match<L, E>, position: u32) -> Seq<ErrorInfo<E>>
    decreases m, 1int, 0int,
{
    let own = match m.spec_grouping() {
        Grouping::Error(e) => seq![ErrorInfo { expected: e, position, length: m.spec_distance() }],
        _ => Seq::empty(),
    };
    if !(m.spec_grouping() is Error) && m.spec_error_distance() is None {
        Seq::empty()
    } else {
        own + children_errors(m, position, 0)
    }
}

/// The erroneous spans of the children of `m` from child `i` on.
pub open spec fn children_errors<L: Copy, E: Copy>(m: Match<L, E>, position: u32, i: int) -> Seq<ErrorInfo<E>>
    decreases m, 0int, m.spec_children().len() - i,
{
    if 0 <= i < m.spec_children().len() {
        proof {
            Match::lemma_child_smaller(m, i);
        }
        errors_of(m.spec_children()[i].1, (position + m.spec_children()[i].0) as u32) + children_errors(m, position, i + 1)
    } else {
        Seq::empty()
    }
}

/// A successful match: how far it reaches, how far the parser looked, how
/// much work it took, where its first error starts, and its children, each
/// at an offset from its start.
pub struct Match<L: Copy, E: Copy> {
    scan_distance: u32,
    work: u32,
    distance: u32,
    error_distance: Option<u32>,
    grouping: Grouping<L, E>,
    children: Vec<(u32, Rc<Match<L, E>>)>,
}

/// The children of a match seen as the matches they point to.
pub open spec fn child_values<L: Copy, E: Copy>(children: Seq<(u32, Rc<Match<L, E>>)>) -> Seq<(u32, Match<L, E>)> {
    children.map_values(|c: (u32, Rc<Match<L, E>>)| (c.0, *c.1))
}

/// `children` shifted by `offset`.
pub open spec fn shifted<L: Copy, E: Copy>(children: Seq<(u32, Match<L, E>)>, offset: u32) -> Seq<(u32, Match<L, E>)> {
    children.map_values(|c: (u32, Match<L, E>)| ((c.0 + offset) as u32, c.1))
}

impl<L: Copy, E: Copy> Match<L, E> {
    /// At most four children, each starting within the match, and the first
    /// error starting within it.
    #[verifier::type_invariant]
    spec fn inv(self) -> bool {
        &&& self.children@.len() <= MATCH_CHILDREN
        &&& forall|i: int| 0 <= i < self.children@.len() ==> #[trigger] self.children@[i].0 + (*self.children@[i].1).distance <= self.distance
        &&& (self.error_distance matches Some(d) ==> d <= self.distance)
    }

    /// How far the parser looked past the start.
    pub closed spec fn spec_scan_distance(self) -> u32 {
        self.scan_distance
    }

    /// How much work the match took.
    pub closed spec fn spec_work(self) -> u32 {
        self.work
    }

    /// How far the match reaches.
    pub closed spec fn spec_distance(self) -> u32 {
        self.distance
    }

    /// Where the first error within the match starts, if there is one.
    pub closed spec fn spec_error_distance(self) -> Option<u32> {
        self.error_distance
    }

    /// Whether the match is labelled or an error.
    pub closed spec fn spec_grouping(self) -> Grouping<L, E> {
        self.grouping
    }

    /// The children, each with its offset.
    pub closed spec fn spec_children(self) -> Seq<(u32, Match<L, E>)> {
        child_values(self.children@)
    }

    /// A child is smaller than the match that holds it.
    pub proof fn lemma_child_smaller(m: Self, i: int)
        requires
            0 <= i < m.spec_children().len(),
        ensures
            decreases_to!(m => m.spec_children()[i].1),
    {
        assert(decreases_to!(m => m.children));
        assert(decreases_to!(m.children => m.children@));
        assert(decreases_to!(m.children@ => m.children@[i]));
        assert(decreases_to!(m.children@[i] => m.children@[i].1));
        assert(m.spec_children()[i].1 == *m.children@[i].1);
    }

    /// An empty, error-free match.
    pub fn empty(scan_distance: u32, work: u32) -> (m: Self)
        ensures
            m.spec_distance() == 0,
            m.spec_scan_distance() == scan_distance,
            m.spec_work() == work,
            m.spec_error_distance() is None,
            m.spec_grouping() is Ungrouped,
            m.spec_children().len() == 0,
    {
        Self::error_free(0, scan_distance, work)
    }

    /// An error-free match without children.
    pub fn error_free(distance: u32, scan_distance: u32, work: u32) -> (m: Self)
        ensures
            m.spec_distance() == distance,
            m.spec_scan_distance() == scan_distance,
            m.spec_work() == work,
            m.spec_error_distance() is None,
            m.spec_grouping() is Ungrouped,
            m.spec_children().len() == 0,
    {
        Match { scan_distance, work, distance, error_distance: None, grouping: Grouping::Ungrouped, children: Vec::new() }
    }

    /// The match of `first` followed by `second`. When neither is grouped
    /// and their children fit, the children of both are pooled; otherwise
    /// the two become the children.
    pub fn combine(first: Self, second: Self) -> (m: Self)
        requires
            first.spec_distance() + second.spec_scan_distance() <= u32::MAX,
            first.spec_distance() + second.spec_distance() <= u32::MAX,
            first.spec_work() + second.spec_work() <= u32::MAX,
        ensures
            m.spec_scan_distance() == if first.spec_scan_distance() >= first.spec_distance() + second.spec_scan_distance() {
                first.spec_scan_distance() as int
            } else {
                first.spec_distance() + second.spec_scan_distance()
            },
            m.spec_work() == first.spec_work() + second.spec_work(),
            m.spec_distance() == first.spec_distance() + second.spec_distance(),
            m.spec_error_distance() == match first.spec_error_distance() {
                Some(d) => Some(d),
                None => match second.spec_error_distance() {
                    Some(d) => Some((first.spec_distance() + d) as u32),
                    None => None,
                },
            },
            m.spec_grouping() is Ungrouped,
            m.spec_children() == if first.spec_grouping() is Ungrouped && second.spec_grouping() is Ungrouped
                && first.spec_children().len() + second.spec_children().len() <= MATCH_CHILDREN {
                first.spec_children() + shifted(second.spec_children(), first.spec_distance())
            } else {
                seq![(0u32, first), (first.spec_distance(), second)]
            },
    {
        proof {
            use_type_invariant(&first);
            use_type_invariant(&second);
        }
        let scan_distance = if first.scan_distance >= first.distance + second.scan_distance {
            first.scan_distance
        } else {
            first.distance + second.scan_distance
        };
        let work = first.work + second.work;
        let distance = first.distance + second.distance;
        let error_distance = match first.error_distance {
            Some(d) => Some(d),
            None => match second.error_distance {
                Some(d) => Some(first.distance + d),
                None => None,
            },
        };
        let first_distance = first.distance;
        if first.grouping.is_ungrouped() && second.grouping.is_ungrouped()
            && first.children.len() + second.children.len() <= MATCH_CHILDREN {
            let ghost first_children = first.spec_children();
            let ghost second_children = second.spec_children();
            let children = Self::merge_children(first, second);
            let m = Match { grouping: Grouping::Ungrouped, scan_distance, work, distance, error_distance, children };
            proof {
                assert(child_values(m.children@) =~= first_children + shifted(second_children, first_distance));
            }
            return m;
        }
        let ghost pair = seq![(0u32, first), (first_distance, second)];
        let mut children: Vec<(u32, Rc<Match<L, E>>)> = Vec::new();
        children.push((0, first.boxed()));
        children.push((first_distance, second.boxed()));
        let m = Match { grouping: Grouping::Ungrouped, children, scan_distance, work, distance, error_distance };
        proof {
            assert(child_values(m.children@) =~= pair);
        }
        m
    }

    /// The children of `first`, then those of `second` shifted past
    /// `first`.
    fn merge_children(first: Self, second: Self) -> (children: Vec<(u32, Rc<Match<L, E>>)>)
        requires
            first.children@.len() + second.children@.len() <= MATCH_CHILDREN,
            first.spec_distance() + second.spec_distance() <= u32::MAX,
        ensures
            children@.len() == first.children@.len() + second.children@.len(),
            child_values(children@) == first.spec_children() + shifted(second.spec_children(), first.spec_distance()),
            forall|i: int| 0 <= i < children@.len() ==> #[trigger] children@[i].0 + (*children@[i].1).distance <= first.spec_distance() + second.spec_distance(),
    {
        proof {
            use_type_invariant(&first);
            use_type_invariant(&second);
        }
        let offset = first.distance;
        let ghost total = first.distance + second.distance;
        let ghost first_values = first.spec_children();
        let ghost second_values = second.spec_children();
        let ghost first_len = first.children@.len();
        let mut children: Vec<(u32, Rc<Match<L, E>>)> = Vec::new();
        let Match { children: first_children, .. } = first;
        let Match { children: second_children, .. } = second;
        let mut i: usize = 0;
        while i < first_children.len()
            invariant
                i <= first_children@.len(),
                first_values == child_values(first_children@),
                forall|k: int| 0 <= k < first_children@.len() ==> #[trigger] first_children@[k].0 + (*first_children@[k].1).distance <= offset,
                offset <= total,
                children@.len() == i,
                child_values(children@) == first_values.take(i as int),
                forall|k: int| 0 <= k < children@.len() ==> #[trigger] children@[k].0 + (*children@[k].1).distance <= total,
            decreases first_children@.len() - i,
        {
            let (o, c) = (first_children[i].0, share(&first_children[i].1));
            children.push((o, c));
            proof {
                assert(child_values(children@) =~= first_values.take(i + 1));
            }
            i += 1;
        }
        assert(first_values.take(i as int) =~= first_values);
        let mut j: usize = 0;
        while j < second_children.len()
            invariant
                j <= second_children@.len(),
                second_values == child_values(second_children@),
                forall|k: int| 0 <= k < second_children@.len() ==> #[trigger] second_children@[k].0 + (*second_children@[k].1).distance + offset <= total,
                total <= u32::MAX,
                children@.len() == first_len + j,
                first_len == first_values.len(),
                child_values(children@) == first_values + shifted(second_values, offset).take(j as int),
                forall|k: int| 0 <= k < children@.len() ==> #[trigger] children@[k].0 + (*children@[k].1).distance <= total,
            decreases second_children@.len() - j,
        {
            let (o, c) = (second_children[j].0 + offset, share(&second_children[j].1));
            let ghost before = child_values(children@);
            children.push((o, c));
            proof {
                let sh = shifted(second_values, offset);
                assert(second_values[j as int] == (second_children@[j as int].0, *second_children@[j as int].1));
                assert(sh[j as int] == (o, *c));
                assert(sh.take(j + 1) =~= sh.take(j as int).push((o, *c)));
                assert(child_values(children@) =~= before.push((o, *c)));
                assert(child_values(children@) =~= first_values + shifted(second_values, offset).take(j + 1));
            }
            j += 1;
        }
        assert(shifted(second_values, offset).take(j as int) =~= shifted(second_values, offset));
        children
    }

    /// The match, looking at least `amount` past its start.
    pub fn extend_scan_distance(self, amount: u32) -> (m: Self)
        ensures
            m.spec_scan_distance() == if self.spec_scan_distance() >= amount { self.spec_scan_distance() } else { amount },
            m.spec_work() == self.spec_work(),
            m.spec_distance() == self.spec_distance(),
            m.spec_error_distance() == self.spec_error_distance(),
            m.spec_grouping() == self.spec_grouping(),
            m.spec_children() == self.spec_children(),
    {
        proof {
            use_type_invariant(&self);
        }
        let scan_distance = if self.scan_distance >= amount { self.scan_distance } else { amount };
        Match { scan_distance, ..self }
    }

    /// The match, having taken `amount` of work.
    pub fn with_work(self, amount: u32) -> (m: Self)
        ensures
            m.spec_scan_distance() == self.spec_scan_distance(),
            m.spec_work() == amount,
            m.spec_distance() == self.spec_distance(),
            m.spec_error_distance() == self.spec_error_distance(),
            m.spec_grouping() == self.spec_grouping(),
            m.spec_children() == self.spec_children(),
    {
        proof {
            use_type_invariant(&self);
        }
        Match { work: amount, ..self }
    }

    /// The match, having taken `amount` more work.
    pub fn add_work(self, amount: u32) -> (m: Self)
        requires
            self.spec_work() + amount <= u32::MAX,
        ensures
            m.spec_scan_distance() == self.spec_scan_distance(),
            m.spec_work() == self.spec_work() + amount,
            m.spec_distance() == self.spec_distance(),
            m.spec_error_distance() == self.spec_error_distance(),
            m.spec_grouping() == self.spec_grouping(),
            m.spec_children() == self.spec_children(),
    {
        proof {
            use_type_invariant(&self);
        }
        let work = self.work + amount;
        Match { work, ..self }
    }

    /// The match behind a shared pointer.
    pub fn boxed(self) -> (b: Rc<Self>)
        ensures
            *b == self,
    {
        Rc::new(self)
    }

    /// An ungrouped match over the same span as `boxed`, with it as its
    /// only child.
    pub fn unboxed(boxed: &Rc<Self>) -> (m: Self)
        ensures
            m.spec_scan_distance() == (**boxed).spec_scan_distance(),
            m.spec_work() == (**boxed).spec_work(),
            m.spec_distance() == (**boxed).spec_distance(),
            m.spec_error_distance() == (**boxed).spec_error_distance(),
            m.spec_grouping() is Ungrouped,
            m.spec_children() == seq![(0u32, **boxed)],
    {
        let inner: &Match<L, E> = &**boxed;
        proof {
            use_type_invariant(inner);
        }
        let mut children: Vec<(u32, Rc<Match<L, E>>)> = Vec::new();
        children.push((0, share(boxed)));
        let m = Match {
            grouping: Grouping::Ungrouped,
            scan_distance: inner.scan_distance,
            work: inner.work,
            distance: inner.distance,
            error_distance: inner.error_distance,
            children,
        };
        proof {
            assert(child_values(m.children@) =~= seq![(0u32, **boxed)]);
        }
        m
    }

    /// An ungrouped match with this one as its only child.
    pub fn wrap(self) -> (m: Self)
        ensures
            m.spec_scan_distance() == self.spec_scan_distance(),
            m.spec_work() == self.spec_work(),
            m.spec_distance() == self.spec_distance(),
            m.spec_error_distance() == self.spec_error_distance(),
            m.spec_grouping() is Ungrouped,
            m.spec_children() == seq![(0u32, self)],
    {
        let boxed = self.boxed();
        Self::unboxed(&boxed)
    }

    /// The span's grouping with `grouping` in its place: the same span
    /// when ungrouped, otherwise a new span with the match as its child.
    fn regrouped(self, grouping: Grouping<L, E>, error_distance: Option<u32>) -> (m: Self)
        requires
            error_distance matches Some(d) ==> d <= self.spec_distance(),
        ensures
            m.spec_scan_distance() == self.spec_scan_distance(),
            m.spec_work() == self.spec_work(),
            m.spec_distance() == self.spec_distance(),
            m.spec_error_distance() == error_distance,
            m.spec_grouping() == grouping,
            m.spec_children() == if self.spec_grouping() is Ungrouped { self.spec_children() } else { seq![(0u32, self)] },
    {
        proof {
            use_type_invariant(&self);
        }
        if self.grouping.is_ungrouped() {
            Match { grouping, error_distance, ..self }
        } else {
            let scan_distance = self.scan_distance;
            let work = self.work;
            let distance = self.distance;
            let ghost value = self;
            let mut children: Vec<(u32, Rc<Match<L, E>>)> = Vec::new();
            children.push((0, self.boxed()));
            let m = Match { grouping, scan_distance, work, distance, error_distance, children };
            proof {
                assert(child_values(m.children@) =~= seq![(0u32, value)]);
            }
            m
        }
    }

    pub fn grouping(&self) -> (grouping: Grouping<L, E>)
        ensures
            grouping == self.spec_grouping(),
    {
        self.grouping
    }

    pub fn scan_distance(&self) -> (scan_distance: u32)
        ensures
            scan_distance == self.spec_scan_distance(),
    {
        self.scan_distance
    }

    pub fn work(&self) -> (work: u32)
        ensures
            work == self.spec_work(),
    {
        self.work
    }

    pub fn distance(&self) -> (distance: u32)
        ensures
            distance == self.spec_distance(),
    {
        self.distance
    }

    pub fn error_distance(&self) -> (error_distance: Option<u32>)
        ensures
            error_distance == self.spec_error_distance(),
            error_distance matches Some(d) ==> d <= self.spec_distance(),
    {
        proof {
            use_type_invariant(self);
        }
        self.error_distance
    }

    /// The label of the span, if it is labelled.
    pub fn label(&self) -> (label: Option<L>)
        ensures
            label == match self.spec_grouping() {
                Grouping::Label(l) => Some(l),
                _ => None,
            },
    {
        match self.grouping {
            Grouping::Label(l) => Some(l),
            _ => None,
        }
    }


    /// Walks the spans of the match, which starts at `position`, calling
    /// the visitor on entering and leaving each labelled or erroneous one,
    /// and descending as it asks; returns whether it asked to stop.
    pub fn visit_from<V: Visitor<L, E>>(&self, position: u32, visitor: &mut V) -> (exited: bool)
        requires
            position + self.spec_distance() <= u32::MAX,
        ensures
            extends(old(visitor).calls(), final(visitor).calls()),
            visit_calls(*self, position, final(visitor).calls(), old(visitor).calls().len() as int)
                == Some((final(visitor).calls().len() as int, exited)),
        decreases self,
    {
        proof {
            use_type_invariant(self);
        }
        let ghost t0 = visitor.calls();
        let ghost at0 = t0.len() as int;
        let ghost n = self.spec_children().len() as int;
        let has_error = self.error_distance.is_some();
        let entered = match self.grouping {
            Grouping::Label(label) => visitor.enter(label, position, self.distance, has_error),
            Grouping::Error(expected) => visitor.enter_error(expected, position, self.distance),
            Grouping::Ungrouped => VisitResult::Continue,
        };
        let ghost t1 = visitor.calls();
        let ghost leave = match self.grouping {
            Grouping::Label(l) => VisitCall::<L, E>::Exit(l, position, self.distance, has_error),
            Grouping::Error(e) => VisitCall::<L, E>::ExitError(e, position, self.distance),
            Grouping::Ungrouped => VisitCall::<L, E>::ExitError(arbitrary(), 0, 0),
        };
        let ghost start = if self.grouping is Ungrouped { at0 } else { at0 + 1 };
        proof {
            assert(extends(t0, t1));
            assert(self.spec_grouping() == self.grouping);
            assert(self.spec_distance() == self.distance);
        }
        match entered {
            VisitResult::Exit => {
                proof {
                    assert(!(self.grouping is Ungrouped));
                }
                return true;
            },
            VisitResult::Skip => {
                proof {
                    assert(!(self.grouping is Ungrouped));
                }
                return false;
            },
            VisitResult::Continue => {},
        }
        let mut i: usize = 0;
        while i < self.children.len()
            invariant
                i <= self.children@.len(),
                n == self.children@.len(),
                self.spec_children() == child_values(self.children@),
                position + self.distance <= u32::MAX,
                forall|k: int| 0 <= k < self.children@.len() ==> #[trigger] self.children@[k].0 + (*self.children@[k].1).distance <= self.distance,
                extends(t1, visitor.calls()),
                extends(t0, t1),
                t0 == old(visitor).calls(),
                match self.grouping {
                    Grouping::Label(l) => t1.len() > at0
                        && t1[at0] == VisitCall::<L, E>::Enter(l, position, self.distance, self.error_distance is Some, VisitResult::Continue),
                    Grouping::Error(e) => t1.len() > at0
                        && t1[at0] == VisitCall::<L, E>::EnterError(e, position, self.distance, VisitResult::Continue),
                    Grouping::Ungrouped => true,
                },
                t0.len() == at0,
                start == if self.grouping is Ungrouped { at0 } else { at0 + 1 },
                self.grouping is Ungrouped ==> t1 == t0,
                start <= t1.len(),
                children_calls(*self, position, visitor.calls(), start, i as int) == Some((visitor.calls().len() as int, false)),
            decreases self.children@.len() - i,
        {
            let offset = self.children[i].0;
            let child: &Match<L, E> = &*self.children[i].1;
            proof {
                assert(self.children@[i as int].0 + (*self.children@[i as int].1).distance <= self.distance);
                assert(decreases_to!(self => self.children));
                assert(decreases_to!(self.children => self.children@));
                assert(decreases_to!(self.children@ => self.children@[i as int]));
                assert(decreases_to!(self.children@[i as int] => self.children@[i as int].1));
            }
            let ghost tb = visitor.calls();
            let stopped = child.visit_from(position + offset, visitor);
            let ghost ta = visitor.calls();
            proof {
                assert(self.spec_children()[i as int] == (offset, *child));
                lemma_children_calls_extend(*self, position, tb, ta, start, i as int);
                assert(children_calls(*self, position, ta, start, i + 1)
                    == visit_calls(*child, (position + offset) as u32, ta, tb.len() as int));
                assert forall|k: int| 0 <= k < t1.len() implies #[trigger] ta[k] == t1[k] by {
                    assert(tb[k] == t1[k]);
                }
            }
            if stopped {
                proof {
                    lemma_children_calls_stop(*self, position, ta, start, i + 1, n);
                    assert forall|k: int| 0 <= k < t0.len() implies #[trigger] ta[k] == t0[k] by {
                        assert(t1[k] == t0[k]);
                    }
                    if !(self.grouping is Ungrouped) {
                        assert(ta[at0] == t1[at0]);
                    }
                }
                return true;
            }
            i += 1;
        }
        let ghost tc = visitor.calls();
        match self.grouping {
            Grouping::Label(label) => visitor.exit(label, position, self.distance, has_error),
            Grouping::Error(expected) => visitor.exit_error(expected, position, self.distance),
            Grouping::Ungrouped => {},
        }
        proof {
            let tf = visitor.calls();
            assert(extends(tc, tf));
            lemma_children_calls_extend(*self, position, tc, tf, start, n);
            assert forall|k: int| 0 <= k < t0.len() implies #[trigger] tf[k] == t0[k] by {
                assert(tc[k] == t1[k]);
                assert(t1[k] == t0[k]);
            }
            if !(self.grouping is Ungrouped) {
                assert(tf[at0] == t1[at0]);
                assert(tf[tc.len() as int] == leave);
            }
        }
        false
    }


    /// Adds the erroneous spans of the match, which starts at `position`,
    /// to `errors`, outermost first, passing over the spans without
    /// errors.
    fn collect_errors(&self, position: u32, errors: &mut Vec<ErrorInfo<E>>)
        requires
            position + self.spec_distance() <= u32::MAX,
        ensures
            final(errors)@ == old(errors)@ + errors_of(*self, position),
        decreases self,
    {
        proof {
            use_type_invariant(self);
        }
        let ghost initial = errors@;
        let ghost own: Seq<ErrorInfo<E>> = match self.grouping {
            Grouping::Error(e) => seq![ErrorInfo { expected: e, position, length: self.distance }],
            _ => Seq::empty(),
        };
        match self.grouping {
            Grouping::Error(expected) => {
                errors.push(ErrorInfo { expected, position, length: self.distance });
            },
            _ => {
                if self.error_distance.is_none() {
                    assert(errors@ =~= initial + errors_of(*self, position));
                    return;
                }
            },
        }
        assert(errors@ =~= initial + own);
        let mut i: usize = 0;
        while i < self.children.len()
            invariant
                i <= self.children@.len(),
                position + self.distance <= u32::MAX,
                forall|k: int| 0 <= k < self.children@.len() ==> #[trigger] self.children@[k].0 + (*self.children@[k].1).distance <= self.distance,
                errors@ + children_errors(*self, position, i as int) == initial + own + children_errors(*self, position, 0),
            decreases self.children@.len() - i,
        {
            let offset = self.children[i].0;
            let child: &Match<L, E> = &*self.children[i].1;
            proof {
                assert(self.children@[i as int].0 + (*self.children@[i as int].1).distance <= self.distance);
                assert(decreases_to!(self => self.children));
                assert(decreases_to!(self.children => self.children@));
                assert(decreases_to!(self.children@ => self.children@[i as int]));
                assert(decreases_to!(self.children@[i as int] => self.children@[i as int].1));
                assert(self.spec_children()[i as int] == (offset, *child));
            }
            let ghost before = errors@;
            child.collect_errors(position + offset, errors);
            proof {
                assert(children_errors(*self, position, i as int)
                    == errors_of(*child, (position + offset) as u32) + children_errors(*self, position, i + 1));
                assert(errors@ + children_errors(*self, position, i + 1) =~= before + children_errors(*self, position, i as int));
            }
            i += 1;
        }
        proof {
            assert(children_errors(*self, position, i as int) == Seq::<ErrorInfo<E>>::empty());
            assert(errors@ =~= initial + own + children_errors(*self, position, 0));
            assert(errors_of(*self, position) == own + children_errors(*self, position, 0));
            assert(errors@ =~= initial + errors_of(*self, position));
        }
    }

    /// The number of children.
    pub fn child_count(&self) -> (count: usize)
        ensures
            count == self.spec_children().len(),
            count <= MATCH_CHILDREN,
    {
        proof {
            use_type_invariant(self);
        }
        self.children.len()
    }

    /// Child `index`, with its offset.
    pub fn child(&self, index: usize) -> (child: (u32, &Match<L, E>))
        requires
            index < self.spec_children().len(),
        ensures
            child.0 == self.spec_children()[index as int].0,
            *child.1 == self.spec_children()[index as int].1,
            child.0 + child.1.spec_distance() <= self.spec_distance(),
    {
        proof {
            use_type_invariant(self);
        }
        let (offset, ref node) = self.children[index];
        (offset, &**node)
    }
}

/// The result of running a parser from a position: a match, or a failure
/// that tells how far the parser looked and how much work it took.
pub enum ParseResult<L: Copy, E: Copy> {
    Matched(Match<L, E>),
    Unmatched { scan_distance: u32, work: u32 },
}

impl<L: Copy, E: Copy> ParseResult<L, E> {
    /// Where the first error starts: at the start for a failure.
    pub open spec fn spec_error_distance(self) -> Option<u32> {
        match self {
            ParseResult::Matched(m) => m.spec_error_distance(),
            ParseResult::Unmatched { .. } => Some(0),
        }
    }

    /// How far the parser looked.
    pub open spec fn spec_scan_distance(self) -> u32 {
        match self {
            ParseResult::Matched(m) => m.spec_scan_distance(),
            ParseResult::Unmatched { scan_distance, .. } => scan_distance,
        }
    }

    /// How much work the parse took.
    pub open spec fn spec_work(self) -> u32 {
        match self {
            ParseResult::Matched(m) => m.spec_work(),
            ParseResult::Unmatched { work, .. } => work,
        }
    }

    /// How far a match reaches; nothing for a failure.
    pub open spec fn spec_distance(self) -> u32 {
        match self {
            ParseResult::Matched(m) => m.spec_distance(),
            ParseResult::Unmatched { .. } => 0,
        }
    }

    pub fn is_match(&self) -> (matched: bool)
        ensures
            matched == (*self is Matched),
    {
        match self {
            ParseResult::Matched(_) => true,
            ParseResult::Unmatched { .. } => false,
        }
    }

    pub fn error_distance(&self) -> (distance: Option<u32>)
        ensures
            distance == self.spec_error_distance(),
    {
        match self {
            ParseResult::Matched(m) => m.error_distance(),
            ParseResult::Unmatched { .. } => Some(0),
        }
    }

    /// A match without errors.
    pub fn is_error_free(&self) -> (free: bool)
        ensures
            free == (self.spec_error_distance() is None),
    {
        self.error_distance().is_none()
    }

    pub fn scan_distance(&self) -> (distance: u32)
        ensures
            distance == self.spec_scan_distance(),
    {
        match self {
            ParseResult::Matched(m) => m.scan_distance(),
            ParseResult::Unmatched { scan_distance, .. } => *scan_distance,
        }
    }

    pub fn work(&self) -> (work: u32)
        ensures
            work == self.spec_work(),
    {
        match self {
            ParseResult::Matched(m) => m.work(),
            ParseResult::Unmatched { work, .. } => *work,
        }
    }

    pub fn distance(&self) -> (distance: u32)
        ensures
            distance == self.spec_distance(),
    {
        match self {
            ParseResult::Matched(m) => m.distance(),
            ParseResult::Unmatched { .. } => 0,
        }
    }

    /// The result, looking at least `amount` past its start.
    pub fn extend_scan_distance(self, amount: u32) -> (r: Self)
        ensures
            r is Matched == self is Matched,
            r.spec_scan_distance() == if self.spec_scan_distance() >= amount { self.spec_scan_distance() } else { amount },
            r.spec_work() == self.spec_work(),
            r.spec_distance() == self.spec_distance(),
            r.spec_error_distance() == self.spec_error_distance(),
            self matches ParseResult::Matched(m) ==> r matches ParseResult::Matched(n)
                && n.spec_grouping() == m.spec_grouping() && n.spec_children() == m.spec_children(),
    {
        match self {
            ParseResult::Matched(m) => ParseResult::Matched(m.extend_scan_distance(amount)),
            ParseResult::Unmatched { scan_distance, work } => ParseResult::Unmatched {
                scan_distance: if scan_distance >= amount { scan_distance } else { amount },
                work,
            },
        }
    }

    /// The result, having taken `amount` of work.
    pub fn with_work(self, amount: u32) -> (r: Self)
        ensures
            r is Matched == self is Matched,
            r.spec_scan_distance() == self.spec_scan_distance(),
            r.spec_work() == amount,
            r.spec_distance() == self.spec_distance(),
            r.spec_error_distance() == self.spec_error_distance(),
            self matches ParseResult::Matched(m) ==> r matches ParseResult::Matched(n)
                && n.spec_grouping() == m.spec_grouping() && n.spec_children() == m.spec_children(),
    {
        match self {
            ParseResult::Matched(m) => ParseResult::Matched(m.with_work(amount)),
            ParseResult::Unmatched { scan_distance, .. } => ParseResult::Unmatched { scan_distance, work: amount },
        }
    }

    /// The result, having taken `amount` more work.
    pub fn add_work(self, amount: u32) -> (r: Self)
        requires
            self.spec_work() + amount <= u32::MAX,
        ensures
            r is Matched == self is Matched,
            r.spec_scan_distance() == self.spec_scan_distance(),
            r.spec_work() == self.spec_work() + amount,
            r.spec_distance() == self.spec_distance(),
            r.spec_error_distance() == self.spec_error_distance(),
            self matches ParseResult::Matched(m) ==> r matches ParseResult::Matched(n)
                && n.spec_grouping() == m.spec_grouping() && n.spec_children() == m.spec_children(),
    {
        match self {
            ParseResult::Matched(m) => ParseResult::Matched(m.add_work(amount)),
            ParseResult::Unmatched { scan_distance, work } => ParseResult::Unmatched { scan_distance, work: work + amount },
        }
    }

    /// The match of a result that is one.
    pub fn unwrap_match(self) -> (m: Match<L, E>)
        requires
            self is Matched,
        ensures
            self == ParseResult::Matched(m),
    {
        match self {
            ParseResult::Matched(m) => m,
            ParseResult::Unmatched { .. } => {
                proof {
                    assert(false);
                }
                Match::empty(0, 0)
            },
        }
    }

    /// Success where this fails, consuming nothing, and failure where this
    /// succeeds; how far the parser looked and the work carry over.
    pub fn negate(self) -> (r: Self)
        ensures
            r is Matched == !(self is Matched),
            r.spec_scan_distance() == self.spec_scan_distance(),
            r.spec_work() == self.spec_work(),
            r.spec_distance() == 0,
            r.spec_error_distance() == if self is Matched { Some(0u32) } else { None },
            r matches ParseResult::Matched(m) ==> m.spec_grouping() is Ungrouped && m.spec_children().len() == 0,
    {
        match self {
            ParseResult::Matched(m) => ParseResult::Unmatched { scan_distance: m.scan_distance(), work: m.work() },
            ParseResult::Unmatched { scan_distance, work } => ParseResult::Matched(Match::empty(scan_distance, work)),
        }
    }

    /// A match marked as an error that expected `expected`, starting where
    /// the match starts; a failure stays as it is.
    pub fn mark_error(self, expected: E) -> (r: Self)
        ensures
            r is Matched == self is Matched,
            r.spec_scan_distance() == self.spec_scan_distance(),
            r.spec_work() == self.spec_work(),
            r.spec_distance() == self.spec_distance(),
            r.spec_error_distance() == Some(0u32),
            self matches ParseResult::Matched(m) ==> r matches ParseResult::Matched(n)
                && n.spec_grouping() == Grouping::<L, E>::Error(expected)
                && n.spec_children() == if m.spec_grouping() is Ungrouped { m.spec_children() } else { seq![(0u32, m)] },
            self is Unmatched ==> r == self,
    {
        match self {
            ParseResult::Matched(m) => ParseResult::Matched(m.regrouped(Grouping::Error(expected), Some(0))),
            ParseResult::Unmatched { .. } => self,
        }
    }

    /// A match labelled `label`; a failure stays as it is.
    pub fn label(self, label: L) -> (r: Self)
        ensures
            r is Matched == self is Matched,
            r.spec_scan_distance() == self.spec_scan_distance(),
            r.spec_work() == self.spec_work(),
            r.spec_distance() == self.spec_distance(),
            r.spec_error_distance() == self.spec_error_distance(),
            self matches ParseResult::Matched(m) ==> r matches ParseResult::Matched(n)
                && n.spec_grouping() == Grouping::<L, E>::Label(label)
                && n.spec_children() == if m.spec_grouping() is Ungrouped { m.spec_children() } else { seq![(0u32, m)] },
            self is Unmatched ==> r == self,
    {
        match self {
            ParseResult::Matched(m) => {
                let error_distance = m.error_distance();
                proof {
                    use_type_invariant(&m);
                }
                ParseResult::Matched(m.regrouped(Grouping::Label(label), error_distance))
            },
            ParseResult::Unmatched { .. } => self,
        }
    }
}

/// An erroneous span: what was expected, where it starts and its length.
#[derive(Debug, Copy, Clone, PartialEq, Eq)]
pub struct ErrorInfo<E> {
    pub expected: E,
    pub position: u32,
    pub length: u32,
}

/// A span of a match, with the position where it starts.
pub struct Cursor<'a, L: Copy, E: Copy> {
    node: &'a Match<L, E>,
    position: u32,
}

impl<'a, L: Copy, E: Copy> Cursor<'a, L, E> {
    /// The span's match.
    pub closed spec fn spec_node(&self) -> Match<L, E> {
        *self.node
    }

    /// Where the span starts.
    pub closed spec fn spec_position(&self) -> u32 {
        self.position
    }

    pub fn grouping(&self) -> (grouping: Grouping<L, E>)
        ensures
            grouping == self.spec_node().spec_grouping(),
    {
        self.node.grouping()
    }

    /// The span's label, if it is labelled.
    pub fn label(&self) -> (label: Option<L>)
        ensures
            label == match self.spec_node().spec_grouping() {
                Grouping::Label(l) => Some(l),
                _ => None,
            },
    {
        self.node.label()
    }

    pub fn position(&self) -> (position: u32)
        ensures
            position == self.spec_position(),
    {
        self.position
    }

    pub fn length(&self) -> (length: u32)
        ensures
            length == self.spec_node().spec_distance(),
    {
        self.node.distance()
    }

    /// Whether some error lies within the span.
    pub fn has_error(&self) -> (has_error: bool)
        ensures
            has_error == self.spec_node().spec_error_distance() is Some,
    {
        self.node.error_distance().is_some()
    }

    /// Walks the spans within this one with `visitor`.
    pub fn visit<V: Visitor<L, E>>(&self, visitor: &mut V)
        requires
            self.spec_position() + self.spec_node().spec_distance() <= u32::MAX,
        ensures
            extends(old(visitor).calls(), final(visitor).calls()),
            visit_calls(self.spec_node(), self.spec_position(), final(visitor).calls(), old(visitor).calls().len() as int)
                matches Some((end, _)) && end == final(visitor).calls().len(),
    {
        let _ = self.node.visit_from(self.position, visitor);
    }
}

/// The match of a whole parse: an ungrouped span over the input.
pub struct ParseMatch<L: Copy, E: Copy> {
    root: Match<L, E>,
}

impl<L: Copy, E: Copy> ParseMatch<L, E> {
    /// The whole span.
    pub closed spec fn spec_root(&self) -> Match<L, E> {
        self.root
    }

    /// `node`, wrapped in an ungrouped span when it is grouped.
    pub fn new(node: Match<L, E>) -> (parse: Self)
        ensures
            parse.spec_root().spec_grouping() is Ungrouped,
            parse.spec_root().spec_distance() == node.spec_distance(),
            parse.spec_root().spec_error_distance() == node.spec_error_distance(),
            node.spec_grouping() is Ungrouped ==> parse.spec_root() == node,
            !(node.spec_grouping() is Ungrouped) ==> parse.spec_root().spec_children() == seq![(0u32, node)],
    {
        if node.grouping().is_ungrouped() {
            ParseMatch { root: node }
        } else {
            ParseMatch { root: node.wrap() }
        }
    }

    /// A cursor on the whole span, which starts at the start of the input.
    pub fn root(&self) -> (cursor: Cursor<'_, L, E>)
        ensures
            cursor.spec_node() == self.spec_root(),
            cursor.spec_position() == 0,
    {
        Cursor { node: &self.root, position: 0 }
    }

    /// Walks the spans of the parse with `visitor`.
    pub fn visit<V: Visitor<L, E>>(&self, visitor: &mut V)
        ensures
            extends(old(visitor).calls(), final(visitor).calls()),
            visit_calls(self.spec_root(), 0, final(visitor).calls(), old(visitor).calls().len() as int)
                matches Some((end, _)) && end == final(visitor).calls().len(),
    {
        proof {
            use_type_invariant(&self.root);
        }
        let _ = self.root.visit_from(0, visitor);
    }

    /// The erroneous spans of the parse, outermost first and in the order
    /// of the input.
    pub fn unmerged_errors(&self) -> (errors: Vec<ErrorInfo<E>>)
        ensures
            errors@ == errors_of(self.spec_root(), 0),
    {
        let mut errors: Vec<ErrorInfo<E>> = Vec::new();
        self.root.collect_errors(0, &mut errors);
        assert(errors@ =~= errors_of(self.root, 0));
        errors
    }
}

} // verus!
