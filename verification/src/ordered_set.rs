use crate::store::StoreKey;
use vstd::prelude::*;

verus! {

/// Whether some element of `list` has the key index `index`.
pub open spec fn lists<K: StoreKey>(list: Seq<K>, index: usize) -> bool {
    exists|j: int| 0 <= j < list.len() && (#[trigger] list[j]).key_index() == index
}

/// `list` after pushing each of `values` in turn, each unless a key of
/// its index is there already.
pub open spec fn extended<K: StoreKey>(list: Seq<K>, values: Seq<K>) -> Seq<K>
    decreases values.len(),
{
    if values.len() == 0 {
        list
    } else {
        let before = extended(list, values.drop_last());
        if lists(before, values.last().key_index()) {
            before
        } else {
            before.push(values.last())
        }
    }
}

/// A stack of keys in which no key occurs twice: pushing a key that is
/// already present does nothing.
pub struct OrderedSet<K: StoreKey> {
    list: Vec<K>,
    present: Vec<bool>,
}

impl<K: StoreKey> View for OrderedSet<K> {
    type V = Seq<K>;

    closed spec fn view(&self) -> Seq<K> {
        self.list@
    }
}

impl<K: StoreKey> OrderedSet<K> {
    #[verifier::type_invariant]
    spec fn inv(self) -> bool {
        &&& forall|j: int| 0 <= j < self.list@.len() ==> (#[trigger] self.list@[j]).key_index() < self.present@.len()
        &&& forall|i: int| 0 <= i < self.present@.len() ==> #[trigger] self.present@[i] == lists(self.list@, i as usize)
        &&& forall|a: int, b: int| 0 <= a < b < self.list@.len() ==> #[trigger] self.list@[a].key_index() != #[trigger] self.list@[b].key_index()
    }

    /// Whether the key with index `index` is in the set.
    pub open spec fn holds(&self, index: usize) -> bool {
        lists(self@, index)
    }

    pub fn new() -> (set: Self)
        ensures
            set@ == Seq::<K>::empty(),
    {
        OrderedSet { list: Vec::new(), present: Vec::new() }
    }

    pub fn is_empty(&self) -> (empty: bool)
        ensures
            empty == (self@.len() == 0),
    {
        self.list.len() == 0
    }

    pub fn len(&self) -> (len: usize)
        ensures
            len == self@.len(),
    {
        self.list.len()
    }

    /// Whether the key `value` is in the set.
    pub fn contains(&self, value: K) -> (contained: bool)
        ensures
            contained == self.holds(value.key_index()),
    {
        proof {
            use_type_invariant(self);
        }
        let index = value.into_usize();
        if index < self.present.len() {
            self.present[index]
        } else {
            proof {
                if lists(self.list@, index) {
                    let j = choose|j: int| 0 <= j < self.list@.len() && (#[trigger] self.list@[j]).key_index() == index;
                }
            }
            false
        }
    }

    /// Puts `value` on top, unless a key with its index is in the set.
    pub fn push(&mut self, value: K)
        requires
            value.key_index() < usize::MAX,
        ensures
            final(self)@ == if old(self).holds(value.key_index()) {
                old(self)@
            } else {
                old(self)@.push(value)
            },
    {
        proof {
            use_type_invariant(&*self);
        }
        if self.contains(value) {
            return;
        }
        let index = value.into_usize();
        let mut this = OrderedSet::new();
        std::mem::swap(self, &mut this);
        let OrderedSet { mut list, mut present } = this;
        let ghost old_list = list@;
        let ghost old_present = present@;
        while present.len() <= index
            invariant
                index < usize::MAX,
                old_present.len() <= present@.len(),
                forall|i: int| 0 <= i < old_present.len() ==> #[trigger] present@[i] == old_present[i],
                forall|i: int| old_present.len() <= i < present@.len() ==> !#[trigger] present@[i],
            decreases index + 1 - present@.len(),
        {
            present.push(false);
        }
        present.set(index, true);
        list.push(value);
        proof {
            assert forall|i: int| 0 <= i < present@.len() implies #[trigger] present@[i] == lists(list@, i as usize) by {
                if i == index {
                    assert(list@[list@.len() - 1].key_index() == index);
                } else if i < old_present.len() {
                    if lists(list@, i as usize) {
                        let j = choose|j: int| 0 <= j < list@.len() && (#[trigger] list@[j]).key_index() == i as usize;
                        assert(j < old_list.len());
                        assert(old_list[j] == list@[j]);
                    }
                    if lists(old_list, i as usize) {
                        let j = choose|j: int| 0 <= j < old_list.len() && (#[trigger] old_list[j]).key_index() == i as usize;
                        assert(list@[j] == old_list[j]);
                    }
                } else {
                    if lists(list@, i as usize) {
                        let j = choose|j: int| 0 <= j < list@.len() && (#[trigger] list@[j]).key_index() == i as usize;
                        assert(j < old_list.len());
                        assert(old_list[j] == list@[j]);
                        assert(old_list[j].key_index() < old_present.len());
                    }
                }
            }
            assert forall|a: int, b: int| 0 <= a < b < list@.len() implies #[trigger] list@[a].key_index() != #[trigger] list@[b].key_index() by {
                if b == list@.len() - 1 {
                    assert(list@[a] == old_list[a]);
                    if list@[a].key_index() == index {
                        assert(lists(old_list, index));
                    }
                } else {
                    assert(list@[a] == old_list[a] && list@[b] == old_list[b]);
                }
            }
        }
        *self = OrderedSet { list, present };
    }

    /// Pushes each of `values` in turn.
    pub fn extend(&mut self, values: &Vec<K>)
        requires
            forall|i: int| 0 <= i < values@.len() ==> (#[trigger] values@[i]).key_index() < usize::MAX,
        ensures
            forall|i: int| 0 <= i < values@.len() ==> final(self).holds(#[trigger] values@[i].key_index()),
            forall|index: usize| final(self).holds(index) ==> old(self).holds(index) || exists|i: int| 0 <= i < values@.len() && #[trigger] values@[i].key_index() == index,
            forall|index: usize| old(self).holds(index) ==> final(self).holds(index),
            final(self)@ == extended(old(self)@, values@),
    {
        let mut k: usize = 0;
        while k < values.len()
            invariant
                k <= values@.len(),
                forall|i: int| 0 <= i < values@.len() ==> (#[trigger] values@[i]).key_index() < usize::MAX,
                forall|i: int| 0 <= i < k ==> self.holds(#[trigger] values@[i].key_index()),
                forall|index: usize| self.holds(index) ==> old(self).holds(index) || exists|i: int| 0 <= i < k && #[trigger] values@[i].key_index() == index,
                forall|index: usize| old(self).holds(index) ==> self.holds(index),
                self@ == extended(old(self)@, values@.take(k as int)),
            decreases values@.len() - k,
        {
            let ghost before = self@;
            self.push(values[k]);
            proof {
                assert(values@.take(k + 1).drop_last() == values@.take(k as int));
                assert(values@.take(k + 1).last() == values@[k as int]);
                assert forall|index: usize| lists(before, index) implies self.holds(index) by {
                    let j = choose|j: int| 0 <= j < before.len() && (#[trigger] before[j]).key_index() == index;
                    assert(self@[j] == before[j]);
                }
                assert(self.holds(values@[k as int].key_index())) by {
                    if !lists(before, values@[k as int].key_index()) {
                        assert(self@[self@.len() - 1] == values@[k as int]);
                    }
                }
                assert forall|index: usize| self.holds(index) implies old(self).holds(index) || exists|i: int| 0 <= i < k + 1 && #[trigger] values@[i].key_index() == index by {
                    let j = choose|j: int| 0 <= j < self@.len() && (#[trigger] self@[j]).key_index() == index;
                    if j < before.len() {
                        assert(before[j] == self@[j]);
                        assert(lists(before, index));
                    } else {
                        assert(self@[j] == values@[k as int]);
                    }
                }
            }
            k += 1;
        }
        proof {
            assert(values@.take(k as int) == values@);
        }
    }

    /// Takes the key on top, if any.
    pub fn pop(&mut self) -> (value: Option<K>)
        ensures
            old(self)@.len() > 0 ==> value == Some(old(self)@.last()) && final(self)@ == old(self)@.drop_last(),
            old(self)@.len() == 0 ==> value is None && final(self)@ == old(self)@,
    {
        proof {
            use_type_invariant(&*self);
        }
        let mut this = OrderedSet::new();
        std::mem::swap(self, &mut this);
        let OrderedSet { mut list, mut present } = this;
        let ghost old_list = list@;
        let value = list.pop();
        match value {
            Some(v) => {
                let index = v.into_usize();
                assert(old_list[old_list.len() - 1] == v);
                present.set(index, false);
                let _len = present.len();
                proof {
                    assert forall|i: int| 0 <= i < present@.len() implies #[trigger] present@[i] == lists(list@, i as usize) by {
                        if lists(list@, i as usize) {
                            let j = choose|j: int| 0 <= j < list@.len() && (#[trigger] list@[j]).key_index() == i as usize;
                            assert(old_list[j] == list@[j]);
                            if i == index {
                                assert(old_list[j].key_index() != old_list[old_list.len() - 1].key_index());
                            }
                        }
                        if i != index && lists(old_list, i as usize) {
                            let j = choose|j: int| 0 <= j < old_list.len() && (#[trigger] old_list[j]).key_index() == i as usize;
                            if j == old_list.len() - 1 {
                                assert(old_list[j] == v);
                                assert(v.key_index() == index);
                                assert(i == index);
                            }
                            assert(list@[j] == old_list[j]);
                        }
                    }
                    assert forall|a: int, b: int| 0 <= a < b < list@.len() implies #[trigger] list@[a].key_index() != #[trigger] list@[b].key_index() by {
                        assert(list@[a] == old_list[a] && list@[b] == old_list[b]);
                    }
                }
            },
            None => {},
        }
        *self = OrderedSet { list, present };
        value
    }

    /// Reverses the order of the keys.
    pub fn reverse(&mut self)
        ensures
            final(self)@ == old(self)@.reverse(),
    {
        proof {
            use_type_invariant(&*self);
        }
        let mut this = OrderedSet::new();
        std::mem::swap(self, &mut this);
        let OrderedSet { mut list, present } = this;
        let ghost old_list = list@;
        let mut reversed: Vec<K> = Vec::new();
        while list.len() > 0
            invariant
                list@.len() + reversed@.len() == old_list.len(),
                list@ == old_list.take(list@.len() as int),
                reversed@ == old_list.reverse().take(reversed@.len() as int),
            decreases list@.len(),
        {
            let ghost before = list@;
            let value = list.pop().unwrap();
            reversed.push(value);
            assert(reversed@ =~= old_list.reverse().take(reversed@.len() as int));
            assert(list@ =~= old_list.take(list@.len() as int));
        }
        assert(reversed@ =~= old_list.reverse());
        proof {
            assert forall|i: int| 0 <= i < present@.len() implies #[trigger] present@[i] == lists(reversed@, i as usize) by {
                if lists(old_list, i as usize) {
                    let j = choose|j: int| 0 <= j < old_list.len() && (#[trigger] old_list[j]).key_index() == i as usize;
                    assert(reversed@[old_list.len() - 1 - j] == old_list[j]);
                }
                if lists(reversed@, i as usize) {
                    let j = choose|j: int| 0 <= j < reversed@.len() && (#[trigger] reversed@[j]).key_index() == i as usize;
                    assert(reversed@[j] == old_list[old_list.len() - 1 - j]);
                }
            }
            assert forall|j: int| 0 <= j < reversed@.len() implies (#[trigger] reversed@[j]).key_index() < present@.len() by {
                assert(reversed@[j] == old_list[old_list.len() - 1 - j]);
            }
            assert forall|a: int, b: int| 0 <= a < b < reversed@.len() implies #[trigger] reversed@[a].key_index() != #[trigger] reversed@[b].key_index() by {
                assert(reversed@[a] == old_list[old_list.len() - 1 - a]);
                assert(reversed@[b] == old_list[old_list.len() - 1 - b]);
            }
        }
        *self = OrderedSet { list: reversed, present };
    }
}

} // verus!
