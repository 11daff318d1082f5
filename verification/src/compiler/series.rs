use crate::compiler::class::{Class, class_matches, class_never, class_union};
use vstd::prelude::*;

verus! {

/// The view of a character class.
pub type ClassView = (bool, Seq<(u8, u8)>);

/// Whether some class of `classes` matches no byte.
pub open spec fn has_never(classes: Seq<ClassView>) -> bool {
    exists|i: int| 0 <= i < classes.len() && class_never(#[trigger] classes[i])
}

/// The classes of the series that matches nothing.
pub open spec fn never_classes() -> Seq<ClassView> {
    seq![(false, Seq::<(u8, u8)>::empty())]
}

/// The classes after `class` is appended to `classes`: a series that can
/// never match collapses to the single class that matches nothing.
pub open spec fn appended(classes: Seq<ClassView>, class: ClassView) -> Seq<ClassView> {
    if has_never(classes.push(class)) {
        never_classes()
    } else {
        classes.push(class)
    }
}

/// The classes of `first` followed by those of `second`, collapsed as
/// [`appended`] does.
pub open spec fn concatenated(first: Seq<ClassView>, second: Seq<ClassView>) -> Seq<ClassView> {
    if has_never(first + second) {
        never_classes()
    } else {
        first + second
    }
}

/// Whether the series with classes `classes` matches exactly the bytes `input`.
pub open spec fn series_matches(classes: Seq<ClassView>, input: Seq<u8>) -> bool {
    &&& input.len() == classes.len()
    &&& forall|i: int| 0 <= i < classes.len() ==> class_matches(#[trigger] classes[i], input[i])
}

/// Whether `first` holds `second`: adding `second` to it changes nothing.
pub open spec fn class_contains(first: ClassView, second: ClassView) -> bool {
    first == class_union(first, second)
}

/// What [`Series::merge`] makes of two series.
pub open spec fn series_merge(first: Seq<ClassView>, second: Seq<ClassView>) -> Option<Seq<ClassView>> {
    let len = first.len();
    if has_never(first) {
        Some(second)
    } else if has_never(second) {
        Some(first)
    } else if first.len() != second.len() {
        None
    } else if len == 0 {
        Some(Seq::empty())
    } else if first.take(len - 1) == second.take(len - 1) {
        Some(first.take(len - 1).push(class_union(first[len - 1], second[len - 1])))
    } else if forall|i: int| 0 <= i < len ==> class_contains(#[trigger] first[i], second[i]) {
        Some(first)
    } else if forall|i: int| 0 <= i < len ==> class_contains(#[trigger] second[i], first[i]) {
        Some(second)
    } else {
        None
    }
}

/// A series of character classes, matched one byte each.
#[derive(Debug)]
pub struct Series {
    classes: Vec<Class>,
}

impl View for Series {
    type V = Seq<ClassView>;

    closed spec fn view(&self) -> Seq<ClassView> {
        self.classes@.map_values(|class: Class| class@)
    }
}

impl Clone for Series {
    fn clone(&self) -> (result: Series)
        ensures
            result@ == self@,
    {
        let mut classes: Vec<Class> = Vec::new();
        let mut i: usize = 0;
        while i < self.classes.len()
            invariant
                i <= self.classes@.len(),
                classes@.len() == i,
                forall|j: int| 0 <= j < i ==> (#[trigger] classes@[j])@ == self.classes@[j]@,
            decreases self.classes@.len() - i,
        {
            classes.push(self.classes[i].clone());
            i += 1;
        }
        let result = Series { classes };
        assert(result@ =~= self@);
        result
    }
}

impl Series {
    /// The series that matches the empty input.
    pub fn empty() -> (series: Series)
        ensures
            series@ == Seq::<ClassView>::empty(),
    {
        let series = Series { classes: Vec::new() };
        assert(series@ =~= Seq::<ClassView>::empty());
        series
    }

    /// The series that matches nothing.
    pub fn never() -> (series: Series)
        ensures
            series@ == never_classes(),
    {
        let mut classes: Vec<Class> = Vec::new();
        classes.push(Class::new(false));
        let series = Series { classes };
        assert(series@ =~= never_classes());
        series
    }

    pub fn is_empty(&self) -> (empty: bool)
        ensures
            empty == (self@.len() == 0),
    {
        self.classes.len() == 0
    }

    /// Whether the series can never match.
    pub fn is_never(&self) -> (never: bool)
        ensures
            never == has_never(self@),
    {
        let mut i: usize = 0;
        while i < self.classes.len()
            invariant
                i <= self.classes@.len(),
                forall|j: int| 0 <= j < i ==> !class_never(#[trigger] self@[j]),
            decreases self.classes@.len() - i,
        {
            if self.classes[i].is_never() {
                assert(class_never(self@[i as int]));
                return true;
            }
            i += 1;
        }
        false
    }

    /// Appends a class; a series that can never match collapses to the
    /// single class that matches nothing.
    pub fn append(&mut self, class: Class)
        ensures
            final(self)@ == appended(old(self)@, class@),
    {
        let ghost pushed = old(self)@.push(class@);
        self.classes.push(class);
        assert(self@ =~= pushed);
        if self.is_never() {
            self.classes.clear();
            self.classes.push(Class::new(false));
            assert(self@ =~= never_classes());
        }
    }

    pub fn classes(&self) -> (classes: &Vec<Class>)
        ensures
            classes@.len() == self@.len(),
            forall|i: int| 0 <= i < classes@.len() ==> (#[trigger] classes@[i])@ == self@[i],
    {
        &self.classes
    }

    /// Whether two series are identical.
    pub fn equals(&self, other: &Series) -> (equal: bool)
        ensures
            equal == (self@ == other@),
    {
        if self.classes.len() != other.classes.len() {
            return false;
        }
        let equal = self.prefix_equals(other, self.classes.len());
        assert(self@.take(self@.len() as int) == self@);
        assert(other@.take(other@.len() as int) == other@);
        equal
    }

    /// Whether the first `len` classes of two series are identical.
    fn prefix_equals(&self, other: &Series, len: usize) -> (equal: bool)
        requires
            len <= self@.len(),
            len <= other@.len(),
        ensures
            equal == (self@.take(len as int) == other@.take(len as int)),
    {
        let mut i: usize = 0;
        while i < len
            invariant
                i <= len,
                len <= self@.len(),
                len <= other@.len(),
                forall|j: int| 0 <= j < i ==> self@[j] == other@[j],
            decreases len - i,
        {
            if !self.classes[i].equals(&other.classes[i]) {
                assert(self@.take(len as int)[i as int] != other@.take(len as int)[i as int]);
                return false;
            }
            i += 1;
        }
        assert(self@.take(len as int) =~= other@.take(len as int));
        true
    }

    /// The series that matches the input of `first` followed by that of
    /// `second`.
    pub fn concatenate(first: &Series, second: &Series) -> (result: Series)
        ensures
            result@ == concatenated(first@, second@),
    {
        let mut result = Series::empty();
        let ghost all = first@ + second@;
        let mut i: usize = 0;
        while i < first.classes.len()
            invariant
                i <= first@.len(),
                all == first@ + second@,
                result@ == if has_never(all.take(i as int)) { never_classes() } else { all.take(i as int) },
            decreases first@.len() - i,
        {
            let class = first.classes[i].clone();
            assert(class@ == all[i as int]);
            Series::append_step(&mut result, class, Ghost(all), Ghost(i as int));
            i += 1;
        }
        let mut j: usize = 0;
        while j < second.classes.len()
            invariant
                j <= second@.len(),
                all == first@ + second@,
                result@ == if has_never(all.take(first@.len() + j)) { never_classes() } else { all.take(first@.len() + j) },
            decreases second@.len() - j,
        {
            let class = second.classes[j].clone();
            assert(class@ == all[first@.len() + j]);
            Series::append_step(&mut result, class, Ghost(all), Ghost(first@.len() + j));
            j += 1;
        }
        assert(all.take(all.len() as int) == all);
        result
    }

    /// One step of concatenation: appending the class at `i` of `all`.
    fn append_step(result: &mut Series, class: Class, all: Ghost<Seq<ClassView>>, i: Ghost<int>)
        requires
            0 <= i@ < all@.len(),
            class@ == all@[i@],
            old(result)@ == if has_never(all@.take(i@)) { never_classes() } else { all@.take(i@) },
        ensures
            final(result)@ == if has_never(all@.take(i@ + 1)) { never_classes() } else { all@.take(i@ + 1) },
    {
        let ghost before = result@;
        result.append(class);
        proof {
            let all = all@;
            let i = i@;
            let t = all.take(i + 1);
            assert(t == all.take(i).push(all[i]));
            if has_never(all.take(i)) {
                let j = choose|j: int| 0 <= j < i && class_never(#[trigger] all.take(i)[j]);
                assert(t[j] == all.take(i)[j]);
                assert(has_never(t));
                assert(never_classes().push(all[i])[0] == (false, Seq::<(u8, u8)>::empty()));
                assert(class_never(never_classes().push(all[i])[0]));
            } else {
                assert(before == all.take(i));
            }
        }
    }

    /// Merges two series into one that matches the input of either, when
    /// the shape of the two allows it.
    pub fn merge(first: &Series, second: &Series) -> (result: Option<Series>)
        ensures
            result matches Some(s) ==> series_merge(first@, second@) == Some(s@),
            result is None ==> series_merge(first@, second@) is None,
            result matches Some(s) ==> ((forall|i: int| 0 <= i < first@.len() && i < second@.len() ==> !(#[trigger] first@[i].0 && second@[i].0))
                ==> forall|input: Seq<u8>| #[trigger] series_matches(s@, input) == (series_matches(first@, input) || series_matches(second@, input))),
    {
        if first.is_never() {
            proof { lemma_never_matches_nothing(first@); }
            return Some(second.clone());
        }
        if second.is_never() {
            proof { lemma_never_matches_nothing(second@); }
            return Some(first.clone());
        }
        if first.classes.len() != second.classes.len() {
            return None;
        }
        let len = first.classes.len();
        if len == 0 {
            let result = Series::empty();
            assert(first@ =~= result@ && second@ =~= result@);
            return Some(result);
        }
        if let Some(result) = Series::union_equivalent(first, second, len) {
            return Some(result);
        }
        if Series::union_subset(first, second, len) {
            return Some(first.clone());
        }
        if Series::union_subset(second, first, len) {
            return Some(second.clone());
        }
        None
    }

    fn union_equivalent(first: &Series, second: &Series, len: usize) -> (result: Option<Series>)
        requires
            len == first@.len(),
            len == second@.len(),
            len > 0,
        ensures
            result is Some == (first@.take(len - 1) == second@.take(len - 1)),
            result matches Some(s) ==> s@ == first@.take(len - 1).push(class_union(first@[len - 1], second@[len - 1])),
            result matches Some(s) ==> (!(first@[len - 1].0 && second@[len - 1].0) ==> forall|input: Seq<u8>|
                #[trigger] series_matches(s@, input) == (series_matches(first@, input) || series_matches(second@, input))),
    {
        if !first.prefix_equals(second, len - 1) {
            return None;
        }
        let last = Class::union(&first.classes[len - 1], &second.classes[len - 1]);
        let mut classes: Vec<Class> = Vec::new();
        let mut i: usize = 0;
        while i < len - 1
            invariant
                i <= len - 1,
                len == first@.len(),
                classes@.len() == i,
                forall|j: int| 0 <= j < i ==> (#[trigger] classes@[j])@ == first@[j],
            decreases len - 1 - i,
        {
            classes.push(first.classes[i].clone());
            i += 1;
        }
        classes.push(last);
        let result = Series { classes };
        assert(result@ =~= first@.take(len - 1).push(class_union(first@[len - 1], second@[len - 1])));
        proof {
            let s = result@;
            assert forall|input: Seq<u8>| !(first@[len - 1].0 && second@[len - 1].0) implies #[trigger] series_matches(s, input) == (series_matches(first@, input) || series_matches(second@, input)) by {
                if input.len() == len {
                    assert forall|j: int| 0 <= j < len - 1 implies s[j] == first@[j] && s[j] == second@[j] by {
                        assert(s[j] == first@.take(len - 1)[j]);
                        assert(first@.take(len - 1)[j] == second@.take(len - 1)[j]);
                    }
                    assert(s[len - 1] == last@);
                    if series_matches(first@, input) {
                        assert forall|j: int| 0 <= j < s.len() implies class_matches(#[trigger] s[j], input[j]) by {
                            if j < len - 1 {
                                assert(class_matches(first@[j], input[j]));
                            } else {
                                assert(class_matches(first@[len - 1], input[len - 1]));
                            }
                        }
                    }
                    if series_matches(second@, input) {
                        assert forall|j: int| 0 <= j < s.len() implies class_matches(#[trigger] s[j], input[j]) by {
                            if j < len - 1 {
                                assert(class_matches(second@[j], input[j]));
                            } else {
                                assert(class_matches(second@[len - 1], input[len - 1]));
                            }
                        }
                    }
                    if series_matches(s, input) {
                        assert(class_matches(s[len - 1], input[len - 1]));
                        if class_matches(first@[len - 1], input[len - 1]) {
                            assert forall|j: int| 0 <= j < first@.len() implies class_matches(#[trigger] first@[j], input[j]) by {
                                if j < len - 1 {
                                    assert(class_matches(s[j], input[j]));
                                }
                            }
                        } else {
                            assert forall|j: int| 0 <= j < second@.len() implies class_matches(#[trigger] second@[j], input[j]) by {
                                if j < len - 1 {
                                    assert(class_matches(s[j], input[j]));
                                }
                            }
                        }
                    }
                }
            }
        }
        Some(result)
    }

    /// Whether each class of `first` holds the class of `second` at the
    /// same place.
    fn union_subset(first: &Series, second: &Series, len: usize) -> (result: bool)
        requires
            len == first@.len(),
            len == second@.len(),
        ensures
            result == forall|i: int| 0 <= i < len ==> class_contains(#[trigger] first@[i], second@[i]),
            result && (forall|i: int| 0 <= i < len ==> !(#[trigger] first@[i].0 && second@[i].0)) ==> forall|input: Seq<u8>|
                series_matches(second@, input) ==> #[trigger] series_matches(first@, input),
    {
        let mut i: usize = 0;
        while i < len
            invariant
                i <= len,
                len == first@.len(),
                len == second@.len(),
                forall|j: int| 0 <= j < i ==> class_contains(#[trigger] first@[j], second@[j]),
                forall|j: int| 0 <= j < i && !(first@[j].0 && second@[j].0) ==> forall|b: u8|
                    class_matches(second@[j], b) ==> #[trigger] class_matches(first@[j], b),
            decreases len - i,
        {
            if !first.classes[i].contains(&second.classes[i]) {
                assert(first.classes@[i as int]@ == first@[i as int]);
                assert(second.classes@[i as int]@ == second@[i as int]);
                assert(!class_contains(first@[i as int], second@[i as int]));
                return false;
            }
            i += 1;
        }
        proof {
            assert forall|input: Seq<u8>| (forall|i: int| 0 <= i < len ==> !(#[trigger] first@[i].0 && second@[i].0)) && series_matches(second@, input) implies #[trigger] series_matches(first@, input) by {
                assert forall|j: int| 0 <= j < len implies class_matches(#[trigger] first@[j], input[j]) by {
                    assert(!(first@[j].0 && second@[j].0));
                    assert(class_matches(second@[j], input[j]));
                }
            }
        }
        true
    }
}

proof fn lemma_never_matches_nothing(classes: Seq<ClassView>)
    requires
        has_never(classes),
    ensures
        forall|input: Seq<u8>| !#[trigger] series_matches(classes, input),
{
    let i = choose|i: int| 0 <= i < classes.len() && class_never(#[trigger] classes[i]);
    assert forall|input: Seq<u8>| !#[trigger] series_matches(classes, input) by {
        if series_matches(classes, input) {
            let b = input[i];
            assert(class_matches(classes[i], b));
            if classes[i].0 {
                assert(classes[i].1 == seq![(0u8, 255u8)]);
                assert(classes[i].1[0].0 <= b <= classes[i].1[0].1);
            }
        }
    }
}

/// The series of `first` then `second` matches exactly the inputs made of
/// one that `first` matches followed by one that `second` matches.
pub proof fn lemma_concatenated_matches(first: Seq<ClassView>, second: Seq<ClassView>, input: Seq<u8>)
    ensures
        series_matches(concatenated(first, second), input) <==> (input.len() == first.len() + second.len()
            && series_matches(first, input.take(first.len() as int))
            && series_matches(second, input.skip(first.len() as int))),
{
    let n = first.len() as int;
    if has_never(first + second) {
        assert(has_never(never_classes())) by {
            assert(class_never(never_classes()[0]));
        }
        lemma_never_matches_nothing(never_classes());
        assert(!series_matches(concatenated(first, second), input));
        if input.len() == first.len() + second.len() && series_matches(first, input.take(n)) && series_matches(second, input.skip(n)) {
            let i = choose|i: int| 0 <= i < (first + second).len() && class_never(#[trigger] (first + second)[i]);
            lemma_never_matches_nothing(first + second);
            assert(series_matches(first + second, input)) by {
                assert forall|k: int| 0 <= k < (first + second).len() implies class_matches(#[trigger] (first + second)[k], input[k]) by {
                    if k < n {
                        assert(input.take(n)[k] == input[k]);
                        assert(class_matches(first[k], input.take(n)[k]));
                    } else {
                        assert(input.skip(n)[k - n] == input[k]);
                        assert(class_matches(second[k - n], input.skip(n)[k - n]));
                    }
                }
            }
        }
    } else {
        let all = first + second;
        if series_matches(all, input) {
            assert forall|k: int| 0 <= k < first.len() implies class_matches(#[trigger] first[k], input.take(n)[k]) by {
                assert(all[k] == first[k]);
                assert(class_matches(all[k], input[k]));
            }
            assert forall|k: int| 0 <= k < second.len() implies class_matches(#[trigger] second[k], input.skip(n)[k]) by {
                assert(all[k + n] == second[k]);
                assert(class_matches(all[k + n], input[k + n]));
            }
        }
        if input.len() == first.len() + second.len() && series_matches(first, input.take(n)) && series_matches(second, input.skip(n)) {
            assert forall|k: int| 0 <= k < all.len() implies class_matches(#[trigger] all[k], input[k]) by {
                if k < n {
                    assert(input.take(n)[k] == input[k]);
                    assert(class_matches(first[k], input.take(n)[k]));
                } else {
                    assert(input.skip(n)[k - n] == input[k]);
                    assert(class_matches(second[k - n], input.skip(n)[k - n]));
                }
            }
        }
    }
}

} // verus!
