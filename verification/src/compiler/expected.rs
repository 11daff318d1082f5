use crate::compiler::character::Character;
use crate::compiler::class::{covers, ranges_wf};
use crate::compiler::instruction::{Instruction, InstructionId};
use crate::compiler::reach::{reachable_from, reached_from, adjacency_closed, lists_of};
use crate::compiler::series::{ClassView, Series};
use crate::compiler::sorted_set::{ByteKeyed, SortedSet, keys_of, ascending};
use crate::compiler::Parser;
use vstd::prelude::*;

verus! {

/// A class that matches exactly one byte.
pub open spec fn literal_class(class: ClassView) -> bool {
    !class.0 && class.1.len() == 1 && class.1[0].0 == class.1[0].1
}

/// The bytes of the longest run of single-byte classes at the start of
/// `classes`.
pub open spec fn linear_prefix(classes: Seq<ClassView>) -> Seq<u8>
    decreases classes.len(),
{
    if classes.len() > 0 && literal_class(classes[0]) {
        seq![classes[0].1[0].0] + linear_prefix(classes.drop_first())
    } else {
        Seq::empty()
    }
}

/// Whether a series with classes `classes` adds `literal` to an expected
/// set: its literal prefix when it has one, else each byte of its first
/// class when that class is not negated.
pub open spec fn series_literal(classes: Seq<ClassView>, literal: Seq<u8>) -> bool {
    if linear_prefix(classes).len() > 0 {
        literal == linear_prefix(classes)
    } else {
        &&& classes.len() > 0
        &&& !classes[0].0
        &&& literal.len() == 1
        &&& covers(classes[0].1, literal[0])
    }
}

/// What an error instruction expected to see: labels and literals.
#[derive(Debug)]
pub struct Expected {
    pub(crate) labels: SortedSet<String>,
    pub(crate) literals: SortedSet<Vec<u8>>,
}

impl View for Expected {
    type V = (Seq<Seq<u8>>, Seq<Seq<u8>>);

    /// The keys of the labels and those of the literals, each ascending.
    closed spec fn view(&self) -> (Seq<Seq<u8>>, Seq<Seq<u8>>) {
        (self.labels@, self.literals@)
    }
}

impl Expected {
    pub fn new() -> (expected: Expected)
        ensures
            expected@.0.len() == 0,
            expected@.1.len() == 0,
    {
        Expected { labels: SortedSet::new(), literals: SortedSet::new() }
    }

    /// Whether two expected sets hold the same labels and literals.
    pub fn equals(&self, other: &Expected) -> (equal: bool)
        ensures
            equal == (self@ == other@),
    {
        self.labels.equals(&other.labels) && self.literals.equals(&other.literals)
    }

    /// The bytes of the longest run of single-byte classes at the start of
    /// `series`.
    fn linear_series_prefix(&self, series: &Series) -> (buffer: Vec<u8>)
        ensures
            buffer@ == linear_prefix(series@),
    {
        let classes = series.classes();
        let mut buffer: Vec<u8> = Vec::new();
        let mut i: usize = 0;
        assert(series@.skip(0) == series@);
        assert(buffer@ + linear_prefix(series@) == linear_prefix(series@));
        while i < classes.len()
            invariant
                i <= classes@.len(),
                classes@.len() == series@.len(),
                forall|j: int| 0 <= j < classes@.len() ==> (#[trigger] classes@[j])@ == series@[j],
                buffer@ + linear_prefix(series@.skip(i as int)) == linear_prefix(series@),
            decreases classes@.len() - i,
        {
            let class = &classes[i];
            let ranges = class.ranges();
            if class.negated() || ranges.len() != 1 {
                assert(!literal_class(series@.skip(i as int)[0]));
                assert(buffer@ + Seq::<u8>::empty() == buffer@);
                return buffer;
            }
            let (lower, upper) = ranges[0];
            if lower != upper {
                assert(!literal_class(series@.skip(i as int)[0]));
                assert(buffer@ + Seq::<u8>::empty() == buffer@);
                return buffer;
            }
            proof {
                assert(literal_class(series@.skip(i as int)[0]));
                assert(series@.skip(i as int).drop_first() == series@.skip(i + 1));
                assert(buffer@.push(lower) + linear_prefix(series@.skip(i + 1)) == buffer@ + linear_prefix(series@.skip(i as int)));
            }
            buffer.push(lower);
            i += 1;
        }
        assert(linear_prefix(series@.skip(i as int)) == Seq::<u8>::empty());
        assert(buffer@ + Seq::<u8>::empty() == buffer@);
        buffer
    }

    /// Adds what `series` expects: its literal prefix, or else each byte of
    /// its first class when that class is not negated.
    pub fn append_series(&mut self, series: &Series)
        ensures
            final(self)@.0 == old(self)@.0,
            forall|k: Seq<u8>| #[trigger] final(self)@.1.contains(k)
                == (old(self)@.1.contains(k) || series_literal(series@, k)),
    {
        let literal = self.linear_series_prefix(series);
        if literal.len() > 0 {
            self.literals.insert(literal);
            return;
        }
        let classes = series.classes();
        if classes.len() == 0 || classes[0].negated() {
            return;
        }
        let ranges = classes[0].ranges();
        let mut r: usize = 0;
        while r < ranges.len()
            invariant
                r <= ranges@.len(),
                ranges@ == series@[0].1,
                ranges_wf(ranges@),
                series@.len() > 0,
                !series@[0].0,
                linear_prefix(series@).len() == 0,
                self@.0 == old(self)@.0,
                forall|k: Seq<u8>| #[trigger] self@.1.contains(k) == (old(self)@.1.contains(k) || (
                    k.len() == 1 && exists|i: int| 0 <= i < r && (#[trigger] ranges@[i]).0 <= k[0] <= ranges@[i].1)),
            decreases ranges@.len() - r,
        {
            let (lower, upper) = ranges[r];
            assert(ranges@[r as int].0 <= ranges@[r as int].1);
            let mut c: u16 = lower as u16;
            while c <= upper as u16
                invariant
                    lower <= c <= upper as int + 1,
                    (lower, upper) == ranges@[r as int],
                    r < ranges@.len(),
                    self@.0 == old(self)@.0,
                    forall|k: Seq<u8>| #[trigger] self@.1.contains(k) == (old(self)@.1.contains(k) || (
                        k.len() == 1 && ((exists|i: int| 0 <= i < r && (#[trigger] ranges@[i]).0 <= k[0] <= ranges@[i].1)
                            || lower <= k[0] < c))),
                decreases upper as int + 1 - c,
            {
                let byte = c as u8;
                assert(byte == c);
                let single = vec![byte];
                let ghost before = self@.1;
                assert(single@ == seq![byte]);
                self.literals.insert(single);
                proof {
                    assert forall|k: Seq<u8>| #[trigger] self@.1.contains(k) == (before.contains(k) || k == seq![byte]) by {}
                    assert forall|k: Seq<u8>| #[trigger] self@.1.contains(k) == (old(self)@.1.contains(k) || (
                        k.len() == 1 && ((exists|i: int| 0 <= i < r && (#[trigger] ranges@[i]).0 <= k[0] <= ranges@[i].1)
                            || lower <= k[0] < c + 1))) by {
                        if k.len() == 1 && k[0] == byte {
                            assert(k =~= seq![byte]);
                        }
                        if k == seq![byte] {
                            assert(k.len() == 1 && k[0] == byte);
                        }
                    }
                }
                c += 1;
            }
            proof {
                assert forall|k: Seq<u8>| #[trigger] self@.1.contains(k) == (old(self)@.1.contains(k) || (
                    k.len() == 1 && exists|i: int| 0 <= i < r + 1 && (#[trigger] ranges@[i]).0 <= k[0] <= ranges@[i].1)) by {
                    if k.len() == 1 && lower <= k[0] <= upper {
                        assert(ranges@[r as int].0 <= k[0] <= ranges@[r as int].1);
                    }
                }
            }
            r += 1;
        }
    }

    /// The expected labels, in ascending order.
    pub fn labels(&self) -> (labels: &Vec<String>)
        ensures
            keys_of(labels@) == self@.0,
            ascending(self@.0),
    {
        self.labels.items()
    }

    /// The expected literals, in ascending order.
    pub fn literals(&self) -> (literals: &Vec<Vec<u8>>)
        ensures
            keys_of(literals@) == self@.1,
            ascending(self@.1),
    {
        self.literals.items()
    }
}

impl Parser {
    /// The instructions that instruction `i` may run before it consumes
    /// input: the first of a sequence (and the second too when the first
    /// can match without consuming input), both branches of a choice, and
    /// the target of an error, cache or delegate. With `left`, also the
    /// target of a not-ahead or a label: the edges of left recursion.
    /// Without, the edges along which expected sets are gathered.
    pub(crate) open spec fn flow_succs(&self, chars: Seq<Character>, i: usize, left: bool) -> Seq<usize> {
        if !self.has(i) {
            Seq::empty()
        } else {
            match self.ins(i) {
                Instruction::Sequence(first, second) => if chars[first.0 as int].transparent {
                    seq![first.0, second.0]
                } else {
                    seq![first.0]
                },
                Instruction::Choice(first, second) | Instruction::FirstChoice(first, second) => seq![first.0, second.0],
                Instruction::Error(target, _) | Instruction::Cache(target, _) | Instruction::Delegate(target) => seq![target.0],
                Instruction::NotAhead(target) | Instruction::Label(target, _) => if left {
                    seq![target.0]
                } else {
                    Seq::empty()
                },
                Instruction::Series(_) => Seq::empty(),
            }
        }
    }

    /// The graph of the edges of left recursion.
    pub(crate) open spec fn left_graph(&self, chars: Seq<Character>) -> Seq<Seq<usize>> {
        Seq::new(self.size(), |i: int| self.flow_succs(chars, i as usize, true))
    }

    /// The graph of the expected-set edges.
    pub(crate) open spec fn expected_graph(&self, chars: Seq<Character>) -> Seq<Seq<usize>> {
        Seq::new(self.size(), |i: int| self.flow_succs(chars, i as usize, false))
    }

    /// What instruction `i` contributes to the expected sets that include
    /// it: a label's name.
    pub(crate) open spec fn label_at(&self, i: usize, name: Seq<u8>) -> bool {
        &&& self.has(i)
        &&& self.ins(i) matches Instruction::Label(_, label)
        &&& self.labels.has(label.0)
        &&& self.labels.value(label.0).key() == name
    }

    /// What instruction `i` contributes to the expected sets that include
    /// it: the literals of a series.
    pub(crate) open spec fn literal_at(&self, i: usize, literal: Seq<u8>) -> bool {
        &&& self.has(i)
        &&& self.ins(i) matches Instruction::Series(series)
        &&& self.series.has(series.0)
        &&& series_literal(self.series.value(series.0)@, literal)
    }

    /// The adjacency lists of the edges of [`Parser::flow_succs`].
    pub(crate) fn flow_adjacency(&self, chars: &Vec<Character>, left: bool) -> (adj: Vec<Vec<usize>>)
        requires
            self.graph_wf(),
            chars@.len() == self.size(),
        ensures
            adj@.len() == self.size(),
            adjacency_closed(lists_of(adj@)),
            forall|i: int| 0 <= i < adj@.len() ==> (#[trigger] adj@[i])@ == self.flow_succs(chars@, i as usize, left),
    {
        let n = self.instructions.next_index();
        let mut adj: Vec<Vec<usize>> = Vec::new();
        let mut i: usize = 0;
        while i < n
            invariant
                n == self.size(),
                i <= n,
                self.graph_wf(),
                chars@.len() == self.size(),
                adj@.len() == i,
                forall|j: int| 0 <= j < i ==> (#[trigger] adj@[j])@ == self.flow_succs(chars@, j as usize, left),
                forall|j: int, k: int| 0 <= j < i && 0 <= k < adj@[j]@.len() ==> #[trigger] adj@[j]@[k] < n,
            decreases n - i,
        {
            let id = InstructionId(i);
            let mut list: Vec<usize> = Vec::new();
            if self.instructions.contains(id) {
                proof {
                    assert(self.closed_at(i));
                }
                match self.instruction(id) {
                    Instruction::Sequence(first, second) => {
                        proof {
                            assert(self.ins(i).succs()[0] == first);
                            assert(self.ins(i).succs()[1] == second);
                        }
                        list.push(first.0);
                        if chars[first.0].transparent {
                            list.push(second.0);
                        }
                    },
                    Instruction::Choice(first, second) | Instruction::FirstChoice(first, second) => {
                        proof {
                            assert(self.ins(i).succs()[0] == first);
                            assert(self.ins(i).succs()[1] == second);
                        }
                        list.push(first.0);
                        list.push(second.0);
                    },
                    Instruction::Error(target, _) | Instruction::Cache(target, _) | Instruction::Delegate(target) => {
                        proof {
                            assert(self.ins(i).succs()[0] == target);
                        }
                        list.push(target.0);
                    },
                    Instruction::NotAhead(target) | Instruction::Label(target, _) => {
                        proof {
                            assert(self.ins(i).succs()[0] == target);
                        }
                        if left {
                            list.push(target.0);
                        }
                    },
                    Instruction::Series(_) => {},
                }
            }
            assert(list@ =~= self.flow_succs(chars@, i, left));
            adj.push(list);
            i += 1;
        }
        adj
    }

    /// The expected set of instruction `id`: the labels and literals of the
    /// instructions that its expected-set edges reach.
    pub(crate) fn compute_expected(&self, id: InstructionId, chars: &Vec<Character>) -> (result: Expected)
        requires
            self.body_wf(),
            self.has(id.0),
            chars@.len() == self.size(),
        ensures
            forall|k: Seq<u8>| #[trigger] result@.0.contains(k) <==> exists|i: usize|
                reached_from(self.expected_graph(chars@), seq![id.0], i) && #[trigger] self.label_at(i, k),
            forall|k: Seq<u8>| #[trigger] result@.1.contains(k) <==> exists|i: usize|
                reached_from(self.expected_graph(chars@), seq![id.0], i) && #[trigger] self.literal_at(i, k),
    {
        let adj = self.flow_adjacency(chars, false);
        let ghost graph = lists_of(adj@);
        assert(graph =~= self.expected_graph(chars@));
        let starts = vec![id.0];
        let seen = reachable_from(&adj, &starts);
        let mut result = Expected::new();
        let n = adj.len();
        let mut i: usize = 0;
        while i < n
            invariant
                n == self.size(),
                i <= n,
                self.body_wf(),
                seen@.len() == n,
                graph == self.expected_graph(chars@),
                starts@ == seq![id.0],
                forall|v: usize| v < n ==> (seen@[v as int] <==> reached_from(graph, starts@, v)),
                forall|k: Seq<u8>| #[trigger] result@.0.contains(k) <==> exists|j: usize|
                    j < i && reached_from(graph, starts@, j) && #[trigger] self.label_at(j, k),
                forall|k: Seq<u8>| #[trigger] result@.1.contains(k) <==> exists|j: usize|
                    j < i && reached_from(graph, starts@, j) && #[trigger] self.literal_at(j, k),
            decreases n - i,
        {
            let ghost before_labels = result@.0;
            let ghost before_literals = result@.1;
            let present = self.instructions.contains(InstructionId(i));
            if seen[i] && present {
                assert(self.has(i));
                match self.instruction(InstructionId(i)) {
                    Instruction::Label(_, label) => {
                        let name = self.labels.get(label).clone();
                        result.labels.insert(name);
                    },
                    Instruction::Series(series) => {
                        result.append_series(self.series.get(series));
                    },
                    _ => {},
                }
            }
            proof {
                assert forall|k: Seq<u8>| #[trigger] result@.0.contains(k) == (before_labels.contains(k)
                    || (reached_from(graph, starts@, i) && self.label_at(i, k))) by {
                    if !(seen@[i as int] && present) {
                        assert(result@.0 == before_labels);
                    }
                }
                assert forall|k: Seq<u8>| #[trigger] result@.1.contains(k) == (before_literals.contains(k)
                    || (reached_from(graph, starts@, i) && self.literal_at(i, k))) by {
                    if !(seen@[i as int] && present) {
                        assert(result@.1 == before_literals);
                    }
                }
            }
            proof {
                assert forall|k: Seq<u8>| #[trigger] result@.0.contains(k) <==> exists|j: usize|
                    j < i + 1 && reached_from(graph, starts@, j) && #[trigger] self.label_at(j, k) by {
                    if before_labels.contains(k) {
                        let j = choose|j: usize| j < i && reached_from(graph, starts@, j) && #[trigger] self.label_at(j, k);
                    }
                    if exists|j: usize| j < i + 1 && reached_from(graph, starts@, j) && #[trigger] self.label_at(j, k) {
                        let j = choose|j: usize| j < i + 1 && reached_from(graph, starts@, j) && #[trigger] self.label_at(j, k);
                        if j < i {
                            assert(before_labels.contains(k));
                        }
                    }
                }
                assert forall|k: Seq<u8>| #[trigger] result@.1.contains(k) <==> exists|j: usize|
                    j < i + 1 && reached_from(graph, starts@, j) && #[trigger] self.literal_at(j, k) by {
                    if before_literals.contains(k) {
                        let j = choose|j: usize| j < i && reached_from(graph, starts@, j) && #[trigger] self.literal_at(j, k);
                    }
                    if exists|j: usize| j < i + 1 && reached_from(graph, starts@, j) && #[trigger] self.literal_at(j, k) {
                        let j = choose|j: usize| j < i + 1 && reached_from(graph, starts@, j) && #[trigger] self.literal_at(j, k);
                        if j < i {
                            assert(before_literals.contains(k));
                        }
                    }
                }
            }
            i += 1;
        }
        proof {
            assert forall|k: Seq<u8>| #[trigger] result@.0.contains(k) implies exists|j: usize|
                reached_from(graph, seq![id.0], j) && #[trigger] self.label_at(j, k) by {}
            assert forall|k: Seq<u8>| (exists|j: usize| reached_from(graph, seq![id.0], j) && #[trigger] self.label_at(j, k))
                implies #[trigger] result@.0.contains(k) by {
                let j = choose|j: usize| reached_from(graph, seq![id.0], j) && #[trigger] self.label_at(j, k);
                assert(j < n);
            }
            assert forall|k: Seq<u8>| #[trigger] result@.1.contains(k) implies exists|j: usize|
                reached_from(graph, seq![id.0], j) && #[trigger] self.literal_at(j, k) by {}
            assert forall|k: Seq<u8>| (exists|j: usize| reached_from(graph, seq![id.0], j) && #[trigger] self.literal_at(j, k))
                implies #[trigger] result@.1.contains(k) by {
                let j = choose|j: usize| reached_from(graph, seq![id.0], j) && #[trigger] self.literal_at(j, k);
                assert(j < n);
            }
        }
        result
    }
}

/// Instruction `i` may run before consuming input both branches of a
/// choice, the first part of a sequence and its second exactly when the
/// first can match without consuming input, the target of an error, cache
/// or delegate, and, on the edges of left recursion alone, the target of a
/// not-ahead or a label; a series runs nothing.
pub(crate) proof fn lemma_flow_edges(p: &Parser, chars: Seq<Character>, i: usize, left: bool)
    requires
        p.has(i),
    ensures
        match p.ins(i) {
            Instruction::Choice(first, second) | Instruction::FirstChoice(first, second) =>
                p.flow_succs(chars, i, left).contains(first.0) && p.flow_succs(chars, i, left).contains(second.0),
            Instruction::Sequence(first, second) => p.flow_succs(chars, i, left).contains(first.0)
                && (p.flow_succs(chars, i, left).contains(second.0) <==> (second == first || chars[first.0 as int].transparent)),
            Instruction::Error(target, _) | Instruction::Cache(target, _) | Instruction::Delegate(target) =>
                p.flow_succs(chars, i, left).contains(target.0),
            Instruction::NotAhead(target) | Instruction::Label(target, _) =>
                p.flow_succs(chars, i, left).contains(target.0) == left,
            Instruction::Series(_) => p.flow_succs(chars, i, left).len() == 0,
        },
        forall|k: usize| #[trigger] p.flow_succs(chars, i, left).contains(k)
            ==> exists|m: int| 0 <= m < p.ins(i).succs().len() && #[trigger] p.ins(i).succs()[m].0 == k,
{
    let edges = p.flow_succs(chars, i, left);
    match p.ins(i) {
        Instruction::Choice(first, second) | Instruction::FirstChoice(first, second) => {
            assert(edges[0] == first.0);
            assert(edges[1] == second.0);
        },
        Instruction::Sequence(first, second) => {
            assert(edges[0] == first.0);
            if chars[first.0 as int].transparent {
                assert(edges[1] == second.0);
            }
        },
        Instruction::Error(target, _) | Instruction::Cache(target, _) | Instruction::Delegate(target) => {
            assert(edges[0] == target.0);
        },
        Instruction::NotAhead(target) | Instruction::Label(target, _) => {
            if left {
                assert(edges[0] == target.0);
            }
        },
        Instruction::Series(_) => {},
    }
    assert forall|k: usize| #[trigger] edges.contains(k)
        implies exists|m: int| 0 <= m < p.ins(i).succs().len() && #[trigger] p.ins(i).succs()[m].0 == k by {
        let x = choose|x: int| 0 <= x < edges.len() && edges[x] == k;
        assert(p.ins(i).succs()[x].0 == k);
    }
}

} // verus!
