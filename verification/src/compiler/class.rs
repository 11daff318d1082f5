use vstd::prelude::*;

verus! {

/// Well formed ranges are at most one per byte.
pub proof fn lemma_ranges_wf_len(ranges: Seq<(u8, u8)>)
    requires
        ranges_wf(ranges),
    ensures
        ranges.len() <= 256,
{
    if ranges.len() > 0 {
        lemma_range_start_at_least(ranges, ranges.len() - 1);
    }
}

proof fn lemma_range_start_at_least(ranges: Seq<(u8, u8)>, k: int)
    requires
        ranges_wf(ranges),
        0 <= k < ranges.len(),
    ensures
        ranges[k].0 >= k,
    decreases k,
{
    if k > 0 {
        lemma_range_start_at_least(ranges, k - 1);
        assert(ranges[k - 1].1 < ranges[k].0);
        assert(ranges[k - 1].0 <= ranges[k - 1].1);
    }
}

/// Whether some range of `ranges` holds the byte `b`.
pub open spec fn covers(ranges: Seq<(u8, u8)>, b: u8) -> bool {
    exists|i: int| 0 <= i < ranges.len() && (#[trigger] ranges[i]).0 <= b <= ranges[i].1
}

/// Every range is non-empty.
pub open spec fn ranges_valid(ranges: Seq<(u8, u8)>) -> bool {
    forall|i: int| 0 <= i < ranges.len() ==> (#[trigger] ranges[i]).0 <= ranges[i].1
}

/// The ranges are non-empty, ordered and share no byte.
pub open spec fn ranges_wf(ranges: Seq<(u8, u8)>) -> bool {
    &&& ranges_valid(ranges)
    &&& forall|i: int, j: int| 0 <= i < j < ranges.len() ==> #[trigger] ranges[i].1 < #[trigger] ranges[j].0
}

/// Some range of `out` holds the whole of `lo..=hi`.
pub open spec fn within_one(out: Seq<(u8, u8)>, lo: u8, hi: u8) -> bool {
    exists|k: int| 0 <= k < out.len() && (#[trigger] out[k]).0 <= lo && hi <= out[k].1
}

/// Some range of `input` holds both `x` and `x + 1`.
pub open spec fn linked(input: Seq<(u8, u8)>, x: int) -> bool {
    exists|i: int| 0 <= i < input.len() && (#[trigger] input[i]).0 <= x && x + 1 <= input[i].1
}

/// `out` is the normal form of `input`: the ranges of `input` that share a
/// byte, directly or through others, are merged into one, in ascending
/// order. Ranges that only touch stay apart. This pins `out` down.
pub open spec fn normal_form_of(out: Seq<(u8, u8)>, input: Seq<(u8, u8)>) -> bool {
    &&& ranges_wf(out)
    &&& forall|b: u8| covers(out, b) == covers(input, b)
    &&& forall|i: int| 0 <= i < input.len() ==> within_one(out, (#[trigger] input[i]).0, input[i].1)
    &&& forall|k: int| 0 <= k < out.len() ==> range_linked(input, (#[trigger] out[k]).0, out[k].1)
}

/// Every two neighbouring bytes of `lo..=hi` lie in one range of `input`.
pub open spec fn range_linked(input: Seq<(u8, u8)>, lo: u8, hi: u8) -> bool {
    forall|x: int| lo <= x < hi ==> #[trigger] linked(input, x)
}

/// The pieces of the range `(lo, hi)` that lie outside `start..=end`.
pub open spec fn cut_range(lo: u8, hi: u8, start: u8, end: u8) -> Seq<(u8, u8)> {
    let below: Seq<(u8, u8)> = if lo < start {
        seq![(lo, if hi < start { hi } else { (start - 1) as u8 })]
    } else {
        seq![]
    };
    let above: Seq<(u8, u8)> = if hi > end {
        seq![(if lo > end { lo } else { (end + 1) as u8 }, hi)]
    } else {
        seq![]
    };
    below + above
}

/// The pieces of `ranges` that lie outside `start..=end`, in order.
pub open spec fn cut(ranges: Seq<(u8, u8)>, start: u8, end: u8) -> Seq<(u8, u8)>
    decreases ranges.len(),
{
    if ranges.len() == 0 {
        seq![]
    } else {
        cut(ranges.drop_last(), start, end) + cut_range(ranges.last().0, ranges.last().1, start, end)
    }
}

proof fn lemma_cut(ranges: Seq<(u8, u8)>, start: u8, end: u8)
    requires
        ranges_valid(ranges),
        start <= end,
    ensures
        ranges_valid(cut(ranges, start, end)),
        forall|b: u8| covers(cut(ranges, start, end), b) == (covers(ranges, b) && !(start <= b <= end)),
    decreases ranges.len(),
{
    if ranges.len() > 0 {
        let init = ranges.drop_last();
        let (lo, hi) = ranges.last();
        lemma_cut(init, start, end);
        let c = cut(init, start, end);
        let p = cut_range(lo, hi, start, end);
        let all = c + p;
        assert(all == cut(ranges, start, end));
        assert forall|i: int| 0 <= i < all.len() implies (#[trigger] all[i]).0 <= all[i].1 by {
            if i < c.len() {
                assert(all[i] == c[i]);
            } else {
                assert(all[i] == p[i - c.len()]);
            }
        }
        assert forall|b: u8| covers(all, b) == (covers(ranges, b) && !(start <= b <= end)) by {
            if covers(all, b) {
                let i = choose|i: int| 0 <= i < all.len() && (#[trigger] all[i]).0 <= b <= all[i].1;
                if i < c.len() {
                    assert(all[i] == c[i]);
                    assert(covers(c, b));
                    assert(covers(init, b));
                    let j = choose|j: int| 0 <= j < init.len() && (#[trigger] init[j]).0 <= b <= init[j].1;
                    assert(ranges[j] == init[j]);
                } else {
                    assert(all[i] == p[i - c.len()]);
                    assert(ranges[ranges.len() - 1] == (lo, hi));
                }
            }
            if covers(ranges, b) && !(start <= b <= end) {
                let j = choose|j: int| 0 <= j < ranges.len() && (#[trigger] ranges[j]).0 <= b <= ranges[j].1;
                if j < init.len() {
                    assert(init[j] == ranges[j]);
                    assert(covers(init, b));
                    assert(covers(c, b));
                    let i = choose|i: int| 0 <= i < c.len() && (#[trigger] c[i]).0 <= b <= c[i].1;
                    assert(all[i] == c[i]);
                } else {
                    assert(ranges[j] == (lo, hi));
                    if b < start {
                        assert(all[c.len() as int] == p[0]);
                    } else {
                        assert(all[all.len() - 1] == p[p.len() - 1]);
                    }
                }
            }
        }
    }
}

proof fn lemma_normal_form_self(ranges: Seq<(u8, u8)>)
    requires
        ranges_wf(ranges),
    ensures
        normal_form_of(ranges, ranges),
{
    assert forall|i: int| 0 <= i < ranges.len() implies within_one(ranges, (#[trigger] ranges[i]).0, ranges[i].1) by {
    }
    assert forall|k: int| 0 <= k < ranges.len() implies range_linked(ranges, (#[trigger] ranges[k]).0, ranges[k].1) by {
        assert forall|x: int| ranges[k].0 <= x < ranges[k].1 implies #[trigger] linked(ranges, x) by {
        }
    }
}

proof fn lemma_normal_form_member(o1: Seq<(u8, u8)>, o2: Seq<(u8, u8)>, x: Seq<(u8, u8)>, k: int)
    requires
        normal_form_of(o1, x),
        normal_form_of(o2, x),
        0 <= k < o1.len(),
    ensures
        exists|j: int| 0 <= j < o2.len() && o2[j] == o1[k],
{
    let (a, b) = o1[k];
    assert(covers(o1, a));
    assert(covers(o2, a));
    let j = choose|j: int| 0 <= j < o2.len() && (#[trigger] o2[j]).0 <= a <= o2[j].1;
    let (c, d) = o2[j];
    if c < a {
        assert(range_linked(x, c, d));
        assert(linked(x, a - 1));
        let i = choose|i: int| 0 <= i < x.len() && (#[trigger] x[i]).0 <= a - 1 && a <= x[i].1;
        assert(within_one(o1, x[i].0, x[i].1));
        let m = choose|m: int| 0 <= m < o1.len() && (#[trigger] o1[m]).0 <= x[i].0 && x[i].1 <= o1[m].1;
        if m < k {
            assert(o1[m].1 < o1[k].0);
        } else if m > k {
            assert(o1[k].1 < o1[m].0);
        }
    }
    if c > a {
        assert(covers(o1, c));
        assert(range_linked(x, a, b));
        let m = choose|m: int| 0 <= m < o1.len() && (#[trigger] o1[m]).0 <= c <= o1[m].1;
        assert(covers(o2, a));
        // a lies in o2[j] only if c <= a, contradiction with the choice above
    }
    assert(c == a);
    assert(covers(o1, b));
    if d > b {
        assert(range_linked(x, c, d));
        assert(linked(x, b as int));
        let i = choose|i: int| 0 <= i < x.len() && (#[trigger] x[i]).0 <= b && b + 1 <= x[i].1;
        assert(within_one(o1, x[i].0, x[i].1));
        let m = choose|m: int| 0 <= m < o1.len() && (#[trigger] o1[m]).0 <= x[i].0 && x[i].1 <= o1[m].1;
        if m < k {
            assert(o1[m].1 < o1[k].0);
        } else if m > k {
            assert(o1[k].1 < o1[m].0);
        }
    }
    if d < b {
        assert(range_linked(x, a, b));
        assert(linked(x, d as int));
        let i = choose|i: int| 0 <= i < x.len() && (#[trigger] x[i]).0 <= d && d + 1 <= x[i].1;
        assert(within_one(o2, x[i].0, x[i].1));
        let m = choose|m: int| 0 <= m < o2.len() && (#[trigger] o2[m]).0 <= x[i].0 && x[i].1 <= o2[m].1;
        if m < j {
            assert(o2[m].1 < o2[j].0);
        } else if m > j {
            assert(o2[j].1 < o2[m].0);
        }
    }
    assert(o2[j] == o1[k]);
}

proof fn lemma_sorted_same_members(o1: Seq<(u8, u8)>, o2: Seq<(u8, u8)>)
    requires
        ranges_wf(o1),
        ranges_wf(o2),
        forall|k: int| 0 <= k < o1.len() ==> occurs_in(#[trigger] o1[k], o2),
        forall|k: int| 0 <= k < o2.len() ==> occurs_in(#[trigger] o2[k], o1),
    ensures
        o1 == o2,
{
    let n = if o1.len() < o2.len() { o1.len() } else { o2.len() };
    if n > 0 {
        lemma_sorted_prefix(o1, o2, n - 1);
    }
    if o1.len() > o2.len() {
        assert(occurs_in(o1[n as int], o2));
        let j = choose|j: int| 0 <= j < o2.len() && o2[j] == o1[n as int];
        assert(o1[j] == o2[j]);
        assert(o1[j].1 < o1[n as int].0);
    }
    if o2.len() > o1.len() {
        assert(occurs_in(o2[n as int], o1));
        let j = choose|j: int| 0 <= j < o1.len() && o1[j] == o2[n as int];
        assert(o1[j] == o2[j]);
        assert(o2[j].1 < o2[n as int].0);
    }
    assert(o1 =~= o2);
}

proof fn lemma_sorted_prefix(o1: Seq<(u8, u8)>, o2: Seq<(u8, u8)>, k: int)
    requires
        ranges_wf(o1),
        ranges_wf(o2),
        forall|k: int| 0 <= k < o1.len() ==> occurs_in(#[trigger] o1[k], o2),
        forall|k: int| 0 <= k < o2.len() ==> occurs_in(#[trigger] o2[k], o1),
        0 <= k < o1.len(),
        k < o2.len(),
    ensures
        forall|i: int| 0 <= i <= k ==> #[trigger] o1[i] == o2[i],
    decreases k,
{
    if k > 0 {
        lemma_sorted_prefix(o1, o2, k - 1);
    }
    assert(occurs_in(o1[k], o2));
    let j = choose|j: int| 0 <= j < o2.len() && o2[j] == o1[k];
    if j < k {
        assert(o1[j] == o2[j]);
        assert(o1[j].1 < o1[k].0);
    } else if j > k {
        assert(occurs_in(o2[k], o1));
        let m = choose|m: int| 0 <= m < o1.len() && o1[m] == o2[k];
        if m < k {
            assert(o1[m] == o2[m]);
            assert(o2[m].1 < o2[k].0);
        } else if m > k {
            assert(o1[k].1 < o1[m].0);
            assert(o2[k].1 < o2[j].0);
        } else {
            assert(o2[k].1 < o2[j].0);
        }
    }
}

/// A sequence of ranges has at most one normal form.
pub proof fn lemma_normal_form_unique(o1: Seq<(u8, u8)>, o2: Seq<(u8, u8)>, x: Seq<(u8, u8)>)
    requires
        normal_form_of(o1, x),
        normal_form_of(o2, x),
    ensures
        o1 == o2,
{
    assert forall|k: int| 0 <= k < o1.len() implies occurs_in(#[trigger] o1[k], o2) by {
        lemma_normal_form_member(o1, o2, x, k);
    }
    assert forall|k: int| 0 <= k < o2.len() implies occurs_in(#[trigger] o2[k], o1) by {
        lemma_normal_form_member(o2, o1, x, k);
    }
    lemma_sorted_same_members(o1, o2);
}

/// The normal form of `input` (see [`normal_form_of`]).
pub open spec fn normal_form(input: Seq<(u8, u8)>) -> Seq<(u8, u8)> {
    choose|out: Seq<(u8, u8)>| normal_form_of(out, input)
}

proof fn lemma_is_normal_form(out: Seq<(u8, u8)>, input: Seq<(u8, u8)>)
    requires
        normal_form_of(out, input),
    ensures
        out == normal_form(input),
{
    let o = normal_form(input);
    assert(normal_form_of(o, input));
    lemma_normal_form_unique(out, o, input);
}

/// The ranges `ranges` once each range of `removals`, in turn, is taken out.
pub open spec fn remove_all(ranges: Seq<(u8, u8)>, removals: Seq<(u8, u8)>) -> Seq<(u8, u8)>
    decreases removals.len(),
{
    if removals.len() == 0 {
        ranges
    } else {
        normal_form(cut(remove_all(ranges, removals.drop_last()), removals.last().0, removals.last().1))
    }
}

/// The class that [`Class::union`] makes of two classes.
pub open spec fn class_union(first: (bool, Seq<(u8, u8)>), second: (bool, Seq<(u8, u8)>)) -> (bool, Seq<(u8, u8)>) {
    if first.0 == second.0 {
        (first.0, normal_form(first.1 + second.1))
    } else if first.0 {
        (true, remove_all(first.1, second.1))
    } else {
        (true, remove_all(second.1, first.1))
    }
}

proof fn lemma_covers_concat(a: Seq<(u8, u8)>, b: Seq<(u8, u8)>)
    ensures
        forall|x: u8| #[trigger] covers(a + b, x) == (covers(a, x) || covers(b, x)),
{
    let ab = a + b;
    assert forall|x: u8| #[trigger] covers(ab, x) == (covers(a, x) || covers(b, x)) by {
        if covers(ab, x) {
            let i = choose|i: int| 0 <= i < ab.len() && (#[trigger] ab[i]).0 <= x <= ab[i].1;
            if i < a.len() {
                assert(ab[i] == a[i]);
            } else {
                assert(ab[i] == b[i - a.len()]);
            }
        }
        if covers(a, x) {
            let i = choose|i: int| 0 <= i < a.len() && (#[trigger] a[i]).0 <= x <= a[i].1;
            assert(ab[i] == a[i]);
        }
        if covers(b, x) {
            let i = choose|i: int| 0 <= i < b.len() && (#[trigger] b[i]).0 <= x <= b[i].1;
            assert(ab[a.len() + i] == b[i]);
        }
    }
}

/// A character class: a set of byte ranges, possibly negated.
#[derive(Debug)]
pub struct Class {
    negated: bool,
    ranges: Vec<(u8, u8)>,
}

impl View for Class {
    type V = (bool, Seq<(u8, u8)>);

    closed spec fn view(&self) -> (bool, Seq<(u8, u8)>) {
        (self.negated, self.ranges@)
    }
}

impl Class {
    #[verifier::type_invariant]
    spec fn inv(self) -> bool {
        ranges_wf(self.ranges@)
    }

    pub fn new(negated: bool) -> (class: Class)
        ensures
            class@ == (negated, Seq::<(u8, u8)>::empty()),
    {
        Class { negated, ranges: Vec::new() }
    }

    pub fn negated(&self) -> (negated: bool)
        ensures
            negated == self@.0,
    {
        self.negated
    }

    /// The ranges of the class: non-empty, ascending and sharing no byte.
    pub fn ranges(&self) -> (ranges: &Vec<(u8, u8)>)
        ensures
            ranges@ == self@.1,
            ranges_wf(ranges@),
    {
        proof {
            use_type_invariant(self);
        }
        &self.ranges
    }

    /// Adds the bytes `start..=end` to the ranges.
    pub fn insert(&mut self, start: u8, end: u8)
        requires
            start <= end,
        ensures
            final(self)@.0 == old(self)@.0,
            normal_form_of(final(self)@.1, old(self)@.1.push((start, end))),
            final(self)@.1 == normal_form(old(self)@.1.push((start, end))),
    {
        proof {
            use_type_invariant(&*self);
        }
        let mut input = vstd::slice::slice_to_vec(self.ranges.as_slice());
        input.push((start, end));
        assert(ranges_valid(input@)) by {
            assert forall|i: int| 0 <= i < input@.len() implies (#[trigger] input@[i]).0 <= input@[i].1 by {
                if i < input@.len() - 1 {
                    assert(input@[i] == self.ranges@[i]);
                }
            }
        }
        let out = normalized(&input);
        self.ranges = out;
    }

    /// Takes the bytes `start..=end` out of the ranges.
    pub fn remove(&mut self, start: u8, end: u8)
        requires
            start <= end,
        ensures
            final(self)@.0 == old(self)@.0,
            normal_form_of(final(self)@.1, cut(old(self)@.1, start, end)),
            final(self)@.1 == normal_form(cut(old(self)@.1, start, end)),
            forall|b: u8| covers(final(self)@.1, b) == (covers(old(self)@.1, b) && !(start <= b <= end)),
    {
        proof {
            use_type_invariant(&*self);
        }
        let mut pieces: Vec<(u8, u8)> = Vec::new();
        let mut k: usize = 0;
        while k < self.ranges.len()
            invariant
                k <= self.ranges@.len(),
                pieces@ == cut(self.ranges@.take(k as int), start, end),
            decreases self.ranges@.len() - k,
        {
            let (old_start, old_end) = self.ranges[k];
            if old_start < start {
                pieces.push((old_start, if old_end < start { old_end } else { start - 1 }));
            }
            if old_end > end {
                pieces.push((if old_start > end { old_start } else { end + 1 }, old_end));
            }
            proof {
                let t = self.ranges@.take(k + 1);
                assert(t.drop_last() == self.ranges@.take(k as int));
                assert(t.last() == (old_start, old_end));
            }
            k += 1;
        }
        proof {
            assert(self.ranges@.take(k as int) == self.ranges@);
            lemma_cut(self.ranges@, start, end);
        }
        let out = normalized(&pieces);
        self.ranges = out;
    }

    /// Whether the class matches no byte at all.
    pub fn is_never(&self) -> (never: bool)
        ensures
            never == class_never(self@),
    {
        if self.negated {
            let result = self.ranges.len() == 1 && self.ranges[0].0 == 0 && self.ranges[0].1 == 255;
            proof {
                if result {
                    assert(self.ranges@ =~= seq![(0u8, 255u8)]);
                }
            }
            result
        } else {
            self.ranges.len() == 0
        }
    }

    /// Whether two classes are identical.
    pub fn equals(&self, other: &Class) -> (equal: bool)
        ensures
            equal == (self@ == other@),
    {
        if self.negated != other.negated || self.ranges.len() != other.ranges.len() {
            return false;
        }
        let mut i: usize = 0;
        while i < self.ranges.len()
            invariant
                i <= self.ranges@.len(),
                self.ranges@.len() == other.ranges@.len(),
                forall|j: int| 0 <= j < i ==> self.ranges@[j] == other.ranges@[j],
            decreases self.ranges@.len() - i,
        {
            if self.ranges[i].0 != other.ranges[i].0 || self.ranges[i].1 != other.ranges[i].1 {
                return false;
            }
            i += 1;
        }
        assert(self.ranges@ =~= other.ranges@);
        true
    }

    /// The union of two classes by their ranges: classes of equal negation
    /// pool their ranges, so two plain classes hold the bytes of both while
    /// two negated ones exclude the bytes of either and hold only the bytes
    /// both match; otherwise the ranges of the plain class are taken out of
    /// those of the negated one.
    pub fn union(first: &Class, second: &Class) -> (result: Class)
        ensures
            result@ == class_union(first@, second@),
            first@.0 == second@.0 ==> result@.0 == first@.0 && normal_form_of(result@.1, first@.1 + second@.1),
            first@.0 != second@.0 ==> result@.0 && forall|b: u8|
                covers(result@.1, b) == if first@.0 {
                    covers(first@.1, b) && !covers(second@.1, b)
                } else {
                    covers(second@.1, b) && !covers(first@.1, b)
                },
            !(first@.0 && second@.0) ==> forall|b: u8|
                #[trigger] class_matches(result@, b) == (class_matches(first@, b) || class_matches(second@, b)),
            first@.0 && second@.0 ==> forall|b: u8|
                #[trigger] class_matches(result@, b) == (class_matches(first@, b) && class_matches(second@, b)),
    {
        proof {
            use_type_invariant(first);
            use_type_invariant(second);
        }
        if first.negated == second.negated {
            let mut result = first.clone();
            proof {
                lemma_normal_form_self(first@.1);
                assert(first@.1 + second@.1.take(0) == first@.1);
            }
            let mut k: usize = 0;
            while k < second.ranges.len()
                invariant
                    k <= second.ranges@.len(),
                    second.ranges@ == second@.1,
                    ranges_valid(second@.1),
                    result@.0 == first@.0,
                    normal_form_of(result@.1, first@.1 + second@.1.take(k as int)),
                decreases second.ranges@.len() - k,
            {
                let (start, end) = second.ranges[k];
                let ghost before = result@.1;
                result.insert(start, end);
                proof {
                    assert(before.push((start, end)) == before + seq![(start, end)]);
                    lemma_normal_form_compose(before, first@.1 + second@.1.take(k as int), result@.1, seq![(start, end)]);
                    assert(first@.1 + second@.1.take(k as int) + seq![(start, end)] == first@.1 + second@.1.take(k + 1));
                }
                k += 1;
            }
            assert(second@.1.take(k as int) == second@.1);
            proof {
                lemma_is_normal_form(result@.1, first@.1 + second@.1);
                lemma_covers_concat(first@.1, second@.1);
            }
            result
        } else {
            let (negated, non_negated) = if first.negated {
                (first, second)
            } else {
                (second, first)
            };
            let mut result = negated.clone();
            let mut k: usize = 0;
            while k < non_negated.ranges.len()
                invariant
                    k <= non_negated.ranges@.len(),
                    ranges_valid(non_negated.ranges@),
                    result@.0,
                    forall|b: u8| covers(result@.1, b) == (covers(negated@.1, b) && !covers(non_negated@.1.take(k as int), b)),
                    result@.1 == remove_all(negated@.1, non_negated@.1.take(k as int)),
                    negated@.0,
                    non_negated.ranges@ == non_negated@.1,
                decreases non_negated.ranges@.len() - k,
            {
                let (start, end) = non_negated.ranges[k];
                let ghost before = result@.1;
                result.remove(start, end);
                proof {
                    let t = non_negated@.1.take(k + 1);
                    assert(t.drop_last() == non_negated@.1.take(k as int));
                    assert(t.last() == (start, end));
                    let p = non_negated@.1.take(k as int);
                    assert forall|b: u8| covers(t, b) == (covers(p, b) || (start <= b <= end)) by {
                        if covers(t, b) {
                            let i = choose|i: int| 0 <= i < t.len() && (#[trigger] t[i]).0 <= b <= t[i].1;
                            if i < k {
                                assert(p[i] == t[i]);
                            }
                        }
                        if covers(p, b) {
                            let i = choose|i: int| 0 <= i < p.len() && (#[trigger] p[i]).0 <= b <= p[i].1;
                            assert(t[i] == p[i]);
                        }
                        if start <= b <= end {
                            assert(t[k as int] == (start, end));
                        }
                    }
                }
                k += 1;
            }
            assert(non_negated@.1.take(k as int) == non_negated@.1);
            result
        }
    }

    /// Whether `other` adds nothing to the class: the union of the two is
    /// identical to the class itself.
    pub fn contains(&self, other: &Class) -> (contained: bool)
        ensures
            contained == (self@ == class_union(self@, other@)),
            contained && !(self@.0 && other@.0) ==> forall|b: u8|
                class_matches(other@, b) ==> #[trigger] class_matches(self@, b),
    {
        let union = Class::union(self, other);
        self.equals(&union)
    }
}

impl Clone for Class {
    fn clone(&self) -> (result: Class)
        ensures
            result@ == self@,
    {
        proof {
            use_type_invariant(self);
        }
        Class { negated: self.negated, ranges: vstd::slice::slice_to_vec(self.ranges.as_slice()) }
    }
}

/// Whether a class with view `class` matches the byte `b`.
pub open spec fn class_matches(class: (bool, Seq<(u8, u8)>), b: u8) -> bool {
    class.0 != covers(class.1, b)
}

/// Whether a class with view `class` matches no byte at all.
pub open spec fn class_never(class: (bool, Seq<(u8, u8)>)) -> bool {
    if class.0 {
        class.1 == seq![(0u8, 255u8)]
    } else {
        class.1.len() == 0
    }
}

proof fn lemma_normal_form_compose(o1: Seq<(u8, u8)>, x: Seq<(u8, u8)>, o2: Seq<(u8, u8)>, r: Seq<(u8, u8)>)
    requires
        normal_form_of(o1, x),
        normal_form_of(o2, o1 + r),
    ensures
        normal_form_of(o2, x + r),
{
    let xr = x + r;
    let o1r = o1 + r;
    assert forall|b: u8| covers(o2, b) == covers(xr, b) by {
        if covers(xr, b) {
            let i = choose|i: int| 0 <= i < xr.len() && (#[trigger] xr[i]).0 <= b <= xr[i].1;
            if i < x.len() {
                assert(covers(x, b));
                assert(covers(o1, b));
                let k = choose|k: int| 0 <= k < o1.len() && (#[trigger] o1[k]).0 <= b <= o1[k].1;
                assert(o1r[k] == o1[k]);
                assert(covers(o1r, b));
            } else {
                assert(o1r[o1.len() + (i - x.len())] == xr[i]);
                assert(covers(o1r, b));
            }
        }
        if covers(o1r, b) {
            let i = choose|i: int| 0 <= i < o1r.len() && (#[trigger] o1r[i]).0 <= b <= o1r[i].1;
            if i < o1.len() {
                assert(covers(o1, b));
                assert(covers(x, b));
                let k = choose|k: int| 0 <= k < x.len() && (#[trigger] x[k]).0 <= b <= x[k].1;
                assert(xr[k] == x[k]);
            } else {
                assert(xr[x.len() + (i - o1.len())] == o1r[i]);
            }
        }
    }
    assert forall|i: int| 0 <= i < xr.len() implies within_one(o2, (#[trigger] xr[i]).0, xr[i].1) by {
        if i < x.len() {
            assert(xr[i] == x[i]);
            assert(within_one(o1, x[i].0, x[i].1));
            let k = choose|k: int| 0 <= k < o1.len() && (#[trigger] o1[k]).0 <= x[i].0 && x[i].1 <= o1[k].1;
            assert(o1r[k] == o1[k]);
            assert(within_one(o2, o1r[k].0, o1r[k].1));
        } else {
            assert(o1r[o1.len() + (i - x.len())] == xr[i]);
        }
    }
    assert forall|k: int| 0 <= k < o2.len() implies range_linked(xr, (#[trigger] o2[k]).0, o2[k].1) by {
        assert forall|y: int| o2[k].0 <= y < o2[k].1 implies #[trigger] linked(xr, y) by {
        assert(linked(o1r, y));
        let i = choose|i: int| 0 <= i < o1r.len() && (#[trigger] o1r[i]).0 <= y && y + 1 <= o1r[i].1;
        if i < o1.len() {
            assert(o1[i] == o1r[i]);
            assert(linked(x, y));
            let j = choose|j: int| 0 <= j < x.len() && (#[trigger] x[j]).0 <= y && y + 1 <= x[j].1;
            assert(xr[j] == x[j]);
        } else {
            assert(xr[x.len() + (i - o1.len())] == o1r[i]);
        }
        }
    }
}

/// Inserts `item` into `out`, which is ordered by start, after every range
/// whose start is not greater.
fn insert_by_start(out: &mut Vec<(u8, u8)>, item: (u8, u8))
    requires
        forall|i: int, j: int| 0 <= i < j < old(out)@.len() ==> #[trigger] old(out)@[i].0 <= #[trigger] old(out)@[j].0,
    ensures
        forall|i: int, j: int| 0 <= i < j < final(out)@.len() ==> #[trigger] final(out)@[i].0 <= #[trigger] final(out)@[j].0,
        exists|pos: int| 0 <= pos <= old(out)@.len() && final(out)@ == old(out)@.insert(pos, item),
{
    let mut pos: usize = 0;
    while pos < out.len() && out[pos].0 <= item.0
        invariant
            pos <= out@.len(),
            forall|i: int| 0 <= i < pos ==> #[trigger] out@[i].0 <= item.0,
        decreases out@.len() - pos,
    {
        pos += 1;
    }
    let ghost old_out = out@;
    out.insert(pos, item);
    assert forall|i: int, j: int| 0 <= i < j < out@.len() implies #[trigger] out@[i].0 <= #[trigger] out@[j].0 by {
        if j < pos {
            assert(out@[i] == old_out[i] && out@[j] == old_out[j]);
        } else if j == pos {
            assert(out@[i] == old_out[i]);
        } else if i < pos {
            assert(out@[i] == old_out[i] && out@[j] == old_out[j - 1]);
        } else if i == pos {
            assert(out@[j] == old_out[j - 1]);
        } else {
            assert(out@[i] == old_out[i - 1] && out@[j] == old_out[j - 1]);
        }
    }
}

/// Whether `x` is an element of `s`.
pub open spec fn occurs_in<T>(x: T, s: Seq<T>) -> bool {
    exists|j: int| 0 <= j < s.len() && s[j] == x
}

/// Whether the elements of `a` all occur in `b` and those of `b` all in `a`.
pub open spec fn same_elements<T>(a: Seq<T>, b: Seq<T>) -> bool {
    &&& forall|i: int| 0 <= i < a.len() ==> occurs_in(#[trigger] a[i], b)
    &&& forall|j: int| 0 <= j < b.len() ==> occurs_in(#[trigger] b[j], a)
}

proof fn lemma_same_elements_insert<T>(a: Seq<T>, b: Seq<T>, pos: int, item: T)
    requires
        same_elements(a, b),
        0 <= pos <= a.len(),
    ensures
        same_elements(a.insert(pos, item), b.push(item)),
{
    let a2 = a.insert(pos, item);
    let b2 = b.push(item);
    assert forall|i: int| 0 <= i < a2.len() implies occurs_in(#[trigger] a2[i], b2) by {
        if i < pos {
            assert(a2[i] == a[i]);
            assert(occurs_in(a[i], b));
            let j = choose|j: int| 0 <= j < b.len() && b[j] == a[i];
            assert(b2[j] == b[j]);
        } else if i == pos {
            assert(b2[b.len() as int] == item);
        } else {
            assert(a2[i] == a[i - 1]);
            assert(occurs_in(a[i - 1], b));
            let j = choose|j: int| 0 <= j < b.len() && b[j] == a[i - 1];
            assert(b2[j] == b[j]);
        }
    }
    assert forall|j: int| 0 <= j < b2.len() implies occurs_in(#[trigger] b2[j], a2) by {
        if j < b.len() {
            assert(b2[j] == b[j]);
            assert(occurs_in(b[j], a));
            let i = choose|i: int| 0 <= i < a.len() && a[i] == b[j];
            if i < pos {
                assert(a2[i] == a[i]);
            } else {
                assert(a2[i + 1] == a[i]);
            }
        } else {
            assert(a2[pos] == item);
        }
    }
}

/// Sorts ranges by their start, keeping the order of equal starts.
fn sort_by_start(input: &Vec<(u8, u8)>) -> (out: Vec<(u8, u8)>)
    ensures
        forall|i: int, j: int| 0 <= i < j < out@.len() ==> #[trigger] out@[i].0 <= #[trigger] out@[j].0,
        same_elements(out@, input@),
{
    let mut out: Vec<(u8, u8)> = Vec::new();
    let mut n: usize = 0;
    while n < input.len()
        invariant
            n <= input@.len(),
            forall|i: int, j: int| 0 <= i < j < out@.len() ==> #[trigger] out@[i].0 <= #[trigger] out@[j].0,
            same_elements(out@, input@.take(n as int)),
        decreases input@.len() - n,
    {
        let item = input[n];
        let ghost old_out = out@;
        insert_by_start(&mut out, item);
        proof {
            let pos = choose|pos: int| 0 <= pos <= old_out.len() && out@ == old_out.insert(pos, item);
            lemma_same_elements_insert(old_out, input@.take(n as int), pos, item);
            assert(input@.take(n as int).push(item) == input@.take(n + 1));
        }
        n += 1;
    }
    assert(input@.take(n as int) == input@);
    out
}

/// Merges ranges that share a byte; `sorted` is ordered by start.
fn merge_sorted(sorted: &Vec<(u8, u8)>) -> (out: Vec<(u8, u8)>)
    requires
        ranges_valid(sorted@),
        forall|i: int, j: int| 0 <= i < j < sorted@.len() ==> #[trigger] sorted@[i].0 <= #[trigger] sorted@[j].0,
    ensures
        normal_form_of(out@, sorted@),
{
    let mut out: Vec<(u8, u8)> = Vec::new();
    let mut n: usize = 0;
    while n < sorted.len()
        invariant
            n <= sorted@.len(),
            ranges_valid(sorted@),
            forall|i: int, j: int| 0 <= i < j < sorted@.len() ==> #[trigger] sorted@[i].0 <= #[trigger] sorted@[j].0,
            ranges_wf(out@),
            out@.len() > 0 ==> forall|t: int| n <= t < sorted@.len() ==> out@[out@.len() - 1].0 <= #[trigger] sorted@[t].0,
            n > 0 ==> out@.len() > 0,
            forall|b: u8| covers(out@, b) == covers(sorted@.take(n as int), b),
            forall|i: int| 0 <= i < n ==> within_one(out@, (#[trigger] sorted@[i]).0, sorted@[i].1),
            forall|k: int| 0 <= k < out@.len() ==> range_linked(sorted@.take(n as int), (#[trigger] out@[k]).0, out@[k].1),
        decreases sorted@.len() - n,
    {
        let item = sorted[n];
        let ghost old_out = out@;
        let ghost prefix = sorted@.take(n as int);
        let ghost next_prefix = sorted@.take(n + 1);
        assert(next_prefix == prefix.push(item));
        assert(sorted@[n as int] == item);
        let len = out.len();
        if len > 0 && out[len - 1].1 >= item.0 {
            let last = out[len - 1];
            let merged = (last.0, if last.1 >= item.1 { last.1 } else { item.1 });
            out.set(len - 1, merged);
            assert forall|i: int, j: int| 0 <= i < j < out@.len() implies #[trigger] out@[i].1 < #[trigger] out@[j].0 by {
                assert(old_out[i].1 < old_out[j].0);
            }
            assert forall|b: u8| covers(out@, b) == covers(next_prefix, b) by {
                if covers(out@, b) {
                    let k = choose|k: int| 0 <= k < out@.len() && (#[trigger] out@[k]).0 <= b <= out@[k].1;
                    if k < len - 1 || b <= last.1 {
                        assert(old_out[k].0 <= b <= old_out[k].1);
                        assert(covers(old_out, b));
                        assert(covers(prefix, b));
                        let i = choose|i: int| 0 <= i < prefix.len() && (#[trigger] prefix[i]).0 <= b <= prefix[i].1;
                        assert(next_prefix[i] == prefix[i]);
                    } else {
                        assert(next_prefix[n as int] == item);
                    }
                }
                if covers(next_prefix, b) {
                    let i = choose|i: int| 0 <= i < next_prefix.len() && (#[trigger] next_prefix[i]).0 <= b <= next_prefix[i].1;
                    if i < n {
                        assert(prefix[i] == next_prefix[i]);
                        assert(covers(prefix, b));
                        let k = choose|k: int| 0 <= k < old_out.len() && (#[trigger] old_out[k]).0 <= b <= old_out[k].1;
                        assert(out@[k].0 <= b <= out@[k].1);
                    } else {
                        assert(out@[len - 1].0 <= b <= out@[len - 1].1);
                    }
                }
            }
            assert forall|i: int| 0 <= i < n + 1 implies within_one(out@, (#[trigger] sorted@[i]).0, sorted@[i].1) by {
                if i < n {
                    let k = choose|k: int| 0 <= k < old_out.len() && (#[trigger] old_out[k]).0 <= sorted@[i].0 && sorted@[i].1 <= old_out[k].1;
                    assert(out@[k].0 <= sorted@[i].0 && sorted@[i].1 <= out@[k].1);
                } else {
                    assert(out@[len - 1].0 <= sorted@[i].0 && sorted@[i].1 <= out@[len - 1].1);
                }
            }
            assert forall|k: int| 0 <= k < out@.len() implies range_linked(next_prefix, (#[trigger] out@[k]).0, out@[k].1) by {
                assert forall|x: int| out@[k].0 <= x < out@[k].1 implies #[trigger] linked(next_prefix, x) by {
                if k < len - 1 || x < last.1 {
                    assert(old_out[k].0 <= x < old_out[k].1);
                    assert(linked(prefix, x));
                    let i = choose|i: int| 0 <= i < prefix.len() && (#[trigger] prefix[i]).0 <= x && x + 1 <= prefix[i].1;
                    assert(next_prefix[i] == prefix[i]);
                } else {
                    assert(next_prefix[n as int] == item);
                    assert(item.0 <= x && x + 1 <= item.1);
                }
                }
            }
        } else {
            out.push(item);
            assert forall|i: int, j: int| 0 <= i < j < out@.len() implies #[trigger] out@[i].1 < #[trigger] out@[j].0 by {
                if j < len {
                    assert(old_out[i].1 < old_out[j].0);
                } else if i < len - 1 {
                    assert(old_out[i].1 < old_out[len - 1].0);
                }
            }
            assert forall|b: u8| covers(out@, b) == covers(next_prefix, b) by {
                if covers(out@, b) {
                    let k = choose|k: int| 0 <= k < out@.len() && (#[trigger] out@[k]).0 <= b <= out@[k].1;
                    if k < len {
                        assert(old_out[k] == out@[k]);
                        assert(covers(old_out, b));
                        assert(covers(prefix, b));
                        let i = choose|i: int| 0 <= i < prefix.len() && (#[trigger] prefix[i]).0 <= b <= prefix[i].1;
                        assert(next_prefix[i] == prefix[i]);
                    } else {
                        assert(next_prefix[n as int] == item);
                    }
                }
                if covers(next_prefix, b) {
                    let i = choose|i: int| 0 <= i < next_prefix.len() && (#[trigger] next_prefix[i]).0 <= b <= next_prefix[i].1;
                    if i < n {
                        assert(prefix[i] == next_prefix[i]);
                        assert(covers(prefix, b));
                        let k = choose|k: int| 0 <= k < old_out.len() && (#[trigger] old_out[k]).0 <= b <= old_out[k].1;
                        assert(out@[k] == old_out[k]);
                    } else {
                        assert(out@[len as int] == item);
                    }
                }
            }
            assert forall|i: int| 0 <= i < n + 1 implies within_one(out@, (#[trigger] sorted@[i]).0, sorted@[i].1) by {
                if i < n {
                    let k = choose|k: int| 0 <= k < old_out.len() && (#[trigger] old_out[k]).0 <= sorted@[i].0 && sorted@[i].1 <= old_out[k].1;
                    assert(out@[k] == old_out[k]);
                } else {
                    assert(out@[len as int] == item);
                }
            }
            assert forall|k: int| 0 <= k < out@.len() implies range_linked(next_prefix, (#[trigger] out@[k]).0, out@[k].1) by {
                assert forall|x: int| out@[k].0 <= x < out@[k].1 implies #[trigger] linked(next_prefix, x) by {
                if k < len {
                    assert(old_out[k] == out@[k]);
                    assert(linked(prefix, x));
                    let i = choose|i: int| 0 <= i < prefix.len() && (#[trigger] prefix[i]).0 <= x && x + 1 <= prefix[i].1;
                    assert(next_prefix[i] == prefix[i]);
                } else {
                    assert(next_prefix[n as int] == item);
                }
                }
            }
        }
        n += 1;
    }
    assert(sorted@.take(n as int) == sorted@);
    out
}

proof fn lemma_normal_form_same_elements(out: Seq<(u8, u8)>, a: Seq<(u8, u8)>, b: Seq<(u8, u8)>)
    requires
        normal_form_of(out, a),
        same_elements(a, b),
    ensures
        normal_form_of(out, b),
{
    assert forall|x: u8| covers(out, x) == covers(b, x) by {
        if covers(a, x) {
            let i = choose|i: int| 0 <= i < a.len() && (#[trigger] a[i]).0 <= x <= a[i].1;
            assert(occurs_in(a[i], b));
            let j = choose|j: int| 0 <= j < b.len() && b[j] == a[i];
        }
        if covers(b, x) {
            let j = choose|j: int| 0 <= j < b.len() && (#[trigger] b[j]).0 <= x <= b[j].1;
            assert(occurs_in(b[j], a));
            let i = choose|i: int| 0 <= i < a.len() && a[i] == b[j];
        }
    }
    assert forall|j: int| 0 <= j < b.len() implies within_one(out, (#[trigger] b[j]).0, b[j].1) by {
        assert(occurs_in(b[j], a));
        let i = choose|i: int| 0 <= i < a.len() && a[i] == b[j];
        assert(within_one(out, a[i].0, a[i].1));
    }
    assert forall|k: int| 0 <= k < out.len() implies range_linked(b, (#[trigger] out[k]).0, out[k].1) by {
        assert forall|x: int| out[k].0 <= x < out[k].1 implies #[trigger] linked(b, x) by {
            assert(range_linked(a, out[k].0, out[k].1));
            assert(linked(a, x));
            let i = choose|i: int| 0 <= i < a.len() && (#[trigger] a[i]).0 <= x && x + 1 <= a[i].1;
            assert(occurs_in(a[i], b));
            let j = choose|j: int| 0 <= j < b.len() && b[j] == a[i];
        }
    }
}

/// The normal form of `input`.
fn normalized(input: &Vec<(u8, u8)>) -> (out: Vec<(u8, u8)>)
    requires
        ranges_valid(input@),
    ensures
        normal_form_of(out@, input@),
        out@ == normal_form(input@),
{
    let sorted = sort_by_start(input);
    assert forall|i: int| 0 <= i < sorted@.len() implies (#[trigger] sorted@[i]).0 <= sorted@[i].1 by {
        assert(occurs_in(sorted@[i], input@));
        let j = choose|j: int| 0 <= j < input@.len() && input@[j] == sorted@[i];
    }
    let out = merge_sorted(&sorted);
    proof {
        lemma_normal_form_same_elements(out@, sorted@, input@);
        lemma_is_normal_form(out@, input@);
    }
    out
}

} // verus!
