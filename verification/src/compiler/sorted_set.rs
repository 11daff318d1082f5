use vstd::prelude::*;

verus! {

/// Whether `a` comes before `b` in lexicographic byte order.
pub open spec fn bytes_less(a: Seq<u8>, b: Seq<u8>) -> bool
    decreases a.len(),
{
    if a.len() == 0 {
        b.len() > 0
    } else if b.len() == 0 {
        false
    } else if a[0] != b[0] {
        a[0] < b[0]
    } else {
        bytes_less(a.drop_first(), b.drop_first())
    }
}

pub proof fn lemma_bytes_less_irreflexive(a: Seq<u8>)
    ensures
        !bytes_less(a, a),
    decreases a.len(),
{
    if a.len() > 0 {
        lemma_bytes_less_irreflexive(a.drop_first());
    }
}

pub proof fn lemma_bytes_less_total(a: Seq<u8>, b: Seq<u8>)
    ensures
        a == b || bytes_less(a, b) || bytes_less(b, a),
        !(bytes_less(a, b) && bytes_less(b, a)),
    decreases a.len(),
{
    if a.len() > 0 && b.len() > 0 && a[0] == b[0] {
        lemma_bytes_less_total(a.drop_first(), b.drop_first());
        if a.drop_first() == b.drop_first() {
            assert(a =~= seq![a[0]] + a.drop_first());
            assert(b =~= seq![b[0]] + b.drop_first());
        }
    }
    if a.len() == 0 && b.len() == 0 {
        assert(a =~= b);
    }
}

pub proof fn lemma_bytes_less_transitive(a: Seq<u8>, b: Seq<u8>, c: Seq<u8>)
    requires
        bytes_less(a, b),
        bytes_less(b, c),
    ensures
        bytes_less(a, c),
    decreases a.len(),
{
    if a.len() > 0 && b.len() > 0 && c.len() > 0 && a[0] == b[0] && b[0] == c[0] {
        lemma_bytes_less_transitive(a.drop_first(), b.drop_first(), c.drop_first());
    }
}

/// Two strictly ascending sequences of byte strings that hold the same
/// byte strings are the same sequence.
pub proof fn lemma_ascending_unique(a: Seq<Seq<u8>>, b: Seq<Seq<u8>>)
    requires
        ascending(a),
        ascending(b),
        forall|k: Seq<u8>| a.contains(k) == b.contains(k),
    ensures
        a == b,
    decreases a.len(),
{
    if a.len() == 0 {
        if b.len() > 0 {
            assert(b.contains(b[0]));
        }
        assert(a =~= b);
    } else {
        assert(a.contains(a[0]));
        assert(b.len() > 0);
        assert(b.contains(b[0]));
        let ja = choose|j: int| 0 <= j < b.len() && b[j] == a[0];
        let jb = choose|j: int| 0 <= j < a.len() && a[j] == b[0];
        lemma_bytes_less_irreflexive(a[0]);
        lemma_bytes_less_irreflexive(b[0]);
        if a[0] != b[0] {
            assert(ja > 0 && jb > 0);
            assert(bytes_less(b[0], b[ja]));
            assert(bytes_less(a[0], a[jb]));
            lemma_bytes_less_total(a[0], b[0]);
        }
        let a1 = a.drop_first();
        let b1 = b.drop_first();
        assert forall|i: int, j: int| 0 <= i < j < a1.len() implies bytes_less(#[trigger] a1[i], #[trigger] a1[j]) by {
            assert(a1[i] == a[i + 1] && a1[j] == a[j + 1]);
        }
        assert forall|i: int, j: int| 0 <= i < j < b1.len() implies bytes_less(#[trigger] b1[i], #[trigger] b1[j]) by {
            assert(b1[i] == b[i + 1] && b1[j] == b[j + 1]);
        }
        assert forall|k: Seq<u8>| a1.contains(k) == b1.contains(k) by {
            if a1.contains(k) {
                let i = choose|i: int| 0 <= i < a1.len() && a1[i] == k;
                assert(a[i + 1] == k);
                assert(bytes_less(a[0], a[i + 1]));
                assert(k != a[0]);
                assert(a.contains(k));
                let j = choose|j: int| 0 <= j < b.len() && b[j] == k;
                assert(j != 0);
                assert(b1[j - 1] == k);
            }
            if b1.contains(k) {
                let i = choose|i: int| 0 <= i < b1.len() && b1[i] == k;
                assert(b[i + 1] == k);
                assert(bytes_less(b[0], b[i + 1]));
                assert(k != b[0]);
                assert(b.contains(k));
                let j = choose|j: int| 0 <= j < a.len() && a[j] == k;
                assert(j != 0);
                assert(a1[j - 1] == k);
            }
        }
        lemma_ascending_unique(a1, b1);
        assert(a =~= b) by {
            assert forall|i: int| 0 <= i < a.len() implies a[i] == b[i] by {
                if i > 0 {
                    assert(a[i] == a1[i - 1]);
                    assert(b[i] == b1[i - 1]);
                }
            }
        }
    }
}

/// Compares two byte strings in lexicographic order: `-1`, `0` or `1` as
/// `a` comes before, equals or comes after `b`.
pub fn compare_bytes(a: &[u8], b: &[u8]) -> (order: i8)
    ensures
        order == 0 <==> a@ == b@,
        order < 0 <==> bytes_less(a@, b@),
        order > 0 <==> bytes_less(b@, a@),
{
    proof {
        lemma_bytes_less_total(a@, b@);
        lemma_bytes_less_irreflexive(a@);
    }
    assert(a@.skip(0) == a@);
    assert(b@.skip(0) == b@);
    let mut i: usize = 0;
    while i < a.len() && i < b.len()
        invariant
            i <= a@.len(),
            i <= b@.len(),
            a@.take(i as int) == b@.take(i as int),
            bytes_less(a@, b@) == bytes_less(a@.skip(i as int), b@.skip(i as int)),
            bytes_less(b@, a@) == bytes_less(b@.skip(i as int), a@.skip(i as int)),
        decreases a@.len() - i,
    {
        if a[i] != b[i] {
            assert(a@.skip(i as int)[0] == a@[i as int]);
            assert(b@.skip(i as int)[0] == b@[i as int]);
            if a[i] < b[i] {
                return -1;
            } else {
                return 1;
            }
        }
        assert(a@.skip(i as int).drop_first() == a@.skip(i + 1));
        assert(b@.skip(i as int).drop_first() == b@.skip(i + 1));
        assert(a@.take(i + 1) == a@.take(i as int).push(a@[i as int]));
        assert(b@.take(i + 1) == b@.take(i as int).push(b@[i as int]));
        i += 1;
    }
    if a.len() == b.len() {
        assert(a@ == a@.take(i as int));
        assert(b@ == b@.take(i as int));
        0
    } else if a.len() < b.len() {
        assert(a@.skip(i as int).len() == 0);
        -1
    } else {
        assert(b@.skip(i as int).len() == 0);
        1
    }
}

/// A value with a byte string by which it is ordered.
pub trait ByteKeyed: Sized {
    spec fn key(&self) -> Seq<u8>;

    fn key_bytes(&self) -> (bytes: &[u8])
        ensures
            bytes@ == self.key(),
    ;

    fn duplicate(&self) -> (copy: Self)
        ensures
            copy.key() == self.key(),
    ;
}

impl ByteKeyed for String {
    open spec fn key(&self) -> Seq<u8> {
        vstd::utf8::encode_utf8(self@)
    }

    fn key_bytes(&self) -> (bytes: &[u8]) {
        self.as_str().as_bytes()
    }

    fn duplicate(&self) -> (copy: Self) {
        self.clone()
    }
}

impl ByteKeyed for Vec<u8> {
    open spec fn key(&self) -> Seq<u8> {
        self@
    }

    fn key_bytes(&self) -> (bytes: &[u8]) {
        self.as_slice()
    }

    fn duplicate(&self) -> (copy: Self) {
        vstd::slice::slice_to_vec(self.as_slice())
    }
}

/// The keys of `items`, in order.
pub open spec fn keys_of<T: ByteKeyed>(items: Seq<T>) -> Seq<Seq<u8>> {
    items.map_values(|item: T| item.key())
}

/// Whether `keys` ascends strictly.
pub open spec fn ascending(keys: Seq<Seq<u8>>) -> bool {
    forall|i: int, j: int| 0 <= i < j < keys.len() ==> bytes_less(#[trigger] keys[i], #[trigger] keys[j])
}

/// A set of values kept in ascending order of their keys, without two
/// values of the same key.
#[derive(Debug)]
pub struct SortedSet<T: ByteKeyed> {
    items: Vec<T>,
}

impl<T: ByteKeyed> View for SortedSet<T> {
    type V = Seq<Seq<u8>>;

    /// The keys of the values, in ascending order.
    closed spec fn view(&self) -> Seq<Seq<u8>> {
        keys_of(self.items@)
    }
}

impl<T: ByteKeyed> SortedSet<T> {
    #[verifier::type_invariant]
    spec fn inv(self) -> bool {
        ascending(keys_of(self.items@))
    }

    pub fn new() -> (set: Self)
        ensures
            set@ == Seq::<Seq<u8>>::empty(),
    {
        let set = SortedSet { items: Vec::new() };
        assert(set@ =~= Seq::<Seq<u8>>::empty());
        set
    }

    pub fn len(&self) -> (len: usize)
        ensures
            len == self@.len(),
    {
        self.items.len()
    }

    pub fn is_empty(&self) -> (empty: bool)
        ensures
            empty == (self@.len() == 0),
    {
        self.items.len() == 0
    }

    /// The values, in ascending order of their keys.
    pub closed spec fn values(&self) -> Seq<T> {
        self.items@
    }

    /// The values, in ascending order of their keys.
    pub fn items(&self) -> (items: &Vec<T>)
        ensures
            items@ == self.values(),
            keys_of(items@) == self@,
            ascending(self@),
    {
        proof {
            use_type_invariant(self);
        }
        &self.items
    }

    /// Adds `value`, unless a value of its key is present.
    pub fn insert(&mut self, value: T)
        ensures
            ascending(final(self)@),
            forall|k: Seq<u8>| final(self)@.contains(k) == (old(self)@.contains(k) || k == value.key()),
    {
        proof {
            use_type_invariant(&*self);
        }
        let mut this = SortedSet::new();
        std::mem::swap(self, &mut this);
        let SortedSet { mut items } = this;
        let ghost old_keys = keys_of(items@);
        assert(old_keys == old(self)@);
        let mut pos: usize = 0;
        let mut stop = false;
        let mut found = false;
        while pos < items.len() && !stop
            invariant
                pos <= items@.len(),
                keys_of(items@) == old_keys,
                ascending(old_keys),
                forall|i: int| 0 <= i < pos ==> bytes_less(#[trigger] old_keys[i], value.key()),
                stop && !found ==> pos < items@.len() && bytes_less(value.key(), old_keys[pos as int]),
                found ==> stop && pos < items@.len() && old_keys[pos as int] == value.key(),
            decreases items@.len() - pos, if stop { 0int } else { 1int },
        {
            let order = compare_bytes(items[pos].key_bytes(), value.key_bytes());
            assert(old_keys[pos as int] == items@[pos as int].key());
            if order == 0 {
                found = true;
                stop = true;
            } else if order > 0 {
                stop = true;
            } else {
                pos += 1;
            }
        }
        if found {
            assert(old_keys.contains(value.key()));
            *self = SortedSet { items };
            return;
        }
        items.insert(pos, value);
        let ghost new_keys = keys_of(items@);
        assert(new_keys =~= old_keys.insert(pos as int, value.key()));
        assert forall|i: int, j: int| 0 <= i < j < new_keys.len() implies bytes_less(#[trigger] new_keys[i], #[trigger] new_keys[j]) by {
            if j < pos {
            } else if j == pos {
            } else if i < pos {
                assert(bytes_less(value.key(), old_keys[pos as int]));
                if j - 1 > pos {
                    lemma_bytes_less_transitive(value.key(), old_keys[pos as int], old_keys[j - 1]);
                }
                lemma_bytes_less_transitive(old_keys[i], value.key(), old_keys[j - 1]);
            } else if i == pos {
                if j - 1 > pos {
                    lemma_bytes_less_transitive(value.key(), old_keys[pos as int], old_keys[j - 1]);
                }
            } else {
            }
        }
        assert forall|k: Seq<u8>| new_keys.contains(k) == (old_keys.contains(k) || k == value.key()) by {
            if new_keys.contains(k) {
                let i = choose|i: int| 0 <= i < new_keys.len() && #[trigger] new_keys[i] == k;
                if i < pos {
                    assert(old_keys[i] == k);
                } else if i > pos {
                    assert(old_keys[i - 1] == k);
                }
            }
            if old_keys.contains(k) {
                let i = choose|i: int| 0 <= i < old_keys.len() && #[trigger] old_keys[i] == k;
                if i < pos {
                    assert(new_keys[i] == k);
                } else {
                    assert(new_keys[i + 1] == k);
                }
            }
            if k == value.key() {
                assert(new_keys[pos as int] == k);
            }
        }
        *self = SortedSet { items };
    }

    /// The set holding the values of both.
    pub fn union(first: &Self, second: &Self) -> (result: Self)
        ensures
            forall|k: Seq<u8>| result@.contains(k) == (first@.contains(k) || second@.contains(k)),
    {
        let mut result = first.duplicate();
        let mut i: usize = 0;
        while i < second.items.len()
            invariant
                i <= second.items@.len(),
                keys_of(second.items@) == second@,
                forall|k: Seq<u8>| result@.contains(k) == (first@.contains(k) || second@.take(i as int).contains(k)),
            decreases second.items@.len() - i,
        {
            let value = second.items[i].duplicate();
            result.insert(value);
            proof {
                assert(second@[i as int] == second.items@[i as int].key());
                assert(second@.take(i + 1) == second@.take(i as int).push(second@[i as int]));
                assert forall|k: Seq<u8>| second@.take(i + 1).contains(k) == (second@.take(i as int).contains(k) || k == second@[i as int]) by {
                    if second@.take(i + 1).contains(k) {
                        let j = choose|j: int| 0 <= j < i + 1 && #[trigger] second@.take(i + 1)[j] == k;
                        if j < i {
                            assert(second@.take(i as int)[j] == k);
                        }
                    }
                    if second@.take(i as int).contains(k) {
                        let j = choose|j: int| 0 <= j < i && #[trigger] second@.take(i as int)[j] == k;
                        assert(second@.take(i + 1)[j] == k);
                    }
                    if k == second@[i as int] {
                        assert(second@.take(i + 1)[i as int] == k);
                    }
                }
            }
            i += 1;
        }
        assert(second@.take(i as int) == second@);
        result
    }

    /// A copy of the set.
    pub fn duplicate(&self) -> (copy: Self)
        ensures
            copy@ == self@,
    {
        proof {
            use_type_invariant(self);
        }
        let mut items: Vec<T> = Vec::new();
        let mut i: usize = 0;
        while i < self.items.len()
            invariant
                i <= self.items@.len(),
                items@.len() == i,
                keys_of(items@) == keys_of(self.items@).take(i as int),
            decreases self.items@.len() - i,
        {
            let ghost before = items@;
            items.push(self.items[i].duplicate());
            assert(items@[i as int].key() == self.items@[i as int].key());
            assert(keys_of(items@) =~= keys_of(self.items@).take(i + 1)) by {
                assert forall|j: int| 0 <= j < i implies items@[j] == before[j] by {}
            }
            i += 1;
        }
        assert(keys_of(self.items@).take(i as int) == keys_of(self.items@));
        SortedSet { items }
    }

    /// Whether the two sets hold values of the same keys.
    pub fn equals(&self, other: &Self) -> (equal: bool)
        ensures
            equal == (self@ == other@),
            ascending(self@),
            ascending(other@),
    {
        proof {
            use_type_invariant(self);
            use_type_invariant(other);
        }
        if self.items.len() != other.items.len() {
            assert(self@.len() != other@.len());
            return false;
        }
        let mut i: usize = 0;
        while i < self.items.len()
            invariant
                i <= self.items@.len(),
                self.items@.len() == other.items@.len(),
                ascending(self@),
                ascending(other@),
                forall|j: int| 0 <= j < i ==> keys_of(self.items@)[j] == keys_of(other.items@)[j],
            decreases self.items@.len() - i,
        {
            if compare_bytes(self.items[i].key_bytes(), other.items[i].key_bytes()) != 0 {
                assert(keys_of(self.items@)[i as int] != keys_of(other.items@)[i as int]);
                return false;
            }
            i += 1;
        }
        assert(keys_of(self.items@) =~= keys_of(other.items@));
        true
    }
}

} // verus!
