//! Finite sets and maps over hashes and out points, stored as vectors
//! without duplicate keys; their contents are given as `Set` and `Map` views.

use vstd::prelude::*;

verus! {

broadcast use vstd::array::group_array_axioms;

/// Keys whose executable equality agrees with equality of values.
pub trait KeyEq: Sized + Copy {
    fn key_eq(&self, other: &Self) -> (r: bool)
        ensures
            r == (*self == *other),
    ;
}

/// Byte-wise comparison of two 32-byte hashes.
pub fn bytes32_eq(a: &[u8; 32], b: &[u8; 32]) -> (r: bool)
    ensures
        r == (*a == *b),
{
    let mut i: usize = 0;
    while i < 32
        invariant
            0 <= i <= 32,
            forall|j: int| 0 <= j < i ==> a[j] == b[j],
        decreases 32 - i,
    {
        if a[i] != b[i] {
            return false;
        }
        i += 1;
    }
    assert(*a =~= *b);
    true
}

impl KeyEq for [u8; 32] {
    fn key_eq(&self, other: &Self) -> (r: bool) {
        bytes32_eq(self, other)
    }
}

pub open spec fn key_index<K>(keys: Seq<K>, k: K) -> int {
    choose|i: int| 0 <= i < keys.len() && keys[i] == k
}

proof fn lemma_key_index<K>(keys: Seq<K>, i: int)
    requires
        keys.no_duplicates(),
        0 <= i < keys.len(),
    ensures
        key_index(keys, keys[i]) == i,
{
    let k = keys[i];
    assert(exists|j: int| 0 <= j < keys.len() && keys[j] == k);
    let j = key_index(keys, k);
}

/// Appending an element to a sequence adds it to the sequence's elements.
pub proof fn lemma_push_to_set<A>(s: Seq<A>, x: A)
    ensures
        s.push(x).to_set() == s.to_set().insert(x),
        forall|y: A| #[trigger] s.push(x).contains(y) <==> (s.contains(y) || y == x),
{
    let t = s.push(x);
    assert forall|y: A| #[trigger] t.contains(y) <==> (s.contains(y) || y == x) by {
        if t.contains(y) {
            let k = choose|k: int| 0 <= k < t.len() && #[trigger] t[k] == y;
            if k < s.len() {
                assert(s[k] == y);
            }
        }
        if s.contains(y) {
            let k = choose|k: int| 0 <= k < s.len() && #[trigger] s[k] == y;
            assert(t[k] == y);
        }
        if y == x {
            assert(t[s.len() as int] == y);
        }
    }
    assert(t.to_set() =~= s.to_set().insert(x));
}

/// A finite map from keys to values, kept as two parallel vectors.
#[derive(Clone, Debug, PartialEq, Eq)]
pub struct VecMap<K, V> {
    keys: Vec<K>,
    vals: Vec<V>,
}

impl<K, V> View for VecMap<K, V> {
    type V = Map<K, V>;

    closed spec fn view(&self) -> Map<K, V> {
        Map::new(|k: K| self.keys@.contains(k), |k: K| self.vals@[key_index(self.keys@, k)])
    }
}

impl<K: KeyEq, V> VecMap<K, V> {
    /// Keys distinct, one value per key.
    pub closed spec fn wf(&self) -> bool {
        &&& self.keys@.len() == self.vals@.len()
        &&& self.keys@.no_duplicates()
    }

    /// The keys in storage order.
    pub closed spec fn key_seq(&self) -> Seq<K> {
        self.keys@
    }

    pub proof fn lemma_dom(&self)
        requires
            self.wf(),
        ensures
            self@.dom() == self.key_seq().to_set(),
            self@.dom().finite(),
            forall|i: int|
                0 <= i < self.key_seq().len() ==> #[trigger] self@.contains_key(self.key_seq()[i]),
    {
        assert(self@.dom() =~= self.key_seq().to_set());
    }

    pub fn new() -> (m: Self)
        ensures
            m.wf(),
            m@ == Map::<K, V>::empty(),
    {
        let m = VecMap { keys: Vec::new(), vals: Vec::new() };
        assert(m@ =~= Map::<K, V>::empty());
        m
    }

    /// Number of entries.
    pub fn len(&self) -> (n: usize)
        requires
            self.wf(),
        ensures
            n == self.key_seq().len(),
    {
        self.keys.len()
    }

    /// The key stored at position `i`.
    pub fn key_at(&self, i: usize) -> (k: &K)
        requires
            self.wf(),
            i < self.key_seq().len(),
        ensures
            *k == self.key_seq()[i as int],
    {
        &self.keys[i]
    }

    /// The value stored at position `i`.
    pub fn value_at(&self, i: usize) -> (v: &V)
        requires
            self.wf(),
            i < self.key_seq().len(),
        ensures
            *v == self@[self.key_seq()[i as int]],
    {
        proof {
            lemma_key_index(self.keys@, i as int);
        }
        &self.vals[i]
    }

    fn find(&self, k: &K) -> (r: Option<usize>)
        requires
            self.wf(),
        ensures
            match r {
                Some(i) => i < self.keys@.len() && self.keys@[i as int] == *k,
                None => !self.keys@.contains(*k),
            },
    {
        let mut i: usize = 0;
        while i < self.keys.len()
            invariant
                self.wf(),
                0 <= i <= self.keys@.len(),
                forall|j: int| 0 <= j < i ==> self.keys@[j] != *k,
            decreases self.keys@.len() - i,
        {
            if self.keys[i].key_eq(k) {
                return Some(i);
            }
            i += 1;
        }
        None
    }

    /// Whether `k` has an entry.
    pub fn contains_key(&self, k: &K) -> (r: bool)
        requires
            self.wf(),
        ensures
            r == self@.contains_key(*k),
    {
        self.find(k).is_some()
    }

    /// The value of `k`, if any.
    pub fn get(&self, k: &K) -> (r: Option<&V>)
        requires
            self.wf(),
        ensures
            match r {
                Some(v) => self@.contains_key(*k) && *v == self@[*k],
                None => !self@.contains_key(*k),
            },
    {
        match self.find(k) {
            Some(i) => {
                proof {
                    lemma_key_index(self.keys@, i as int);
                }
                Some(&self.vals[i])
            },
            None => None,
        }
    }

    /// Sets the value of `k`, replacing any earlier one.
    pub fn insert(&mut self, k: K, v: V)
        requires
            old(self).wf(),
        ensures
            final(self).wf(),
            final(self)@ == old(self)@.insert(k, v),
    {
        match self.find(&k) {
            Some(i) => {
                self.vals.set(i, v);
                proof {
                    assert forall|j: int| 0 <= j < self.keys@.len() implies #[trigger] key_index(self.keys@, self.keys@[j]) == j by {
                        lemma_key_index(self.keys@, j);
                    }
                    assert forall|x: K| #[trigger] self.keys@.contains(x) implies self.vals@[key_index(self.keys@, x)]
                        == old(self)@.insert(k, v)[x] by {
                        let j = choose|j: int| 0 <= j < self.keys@.len() && self.keys@[j] == x;
                        lemma_key_index(self.keys@, j);
                    }
                    assert(self@ =~= old(self)@.insert(k, v));
                }
            },
            None => {
                let ghost old_keys = self.keys@;
                self.keys.push(k);
                self.vals.push(v);
                proof {
                    let n = old_keys.len() as int;
                    assert(self.keys@ == old_keys.push(k));
                    assert forall|j: int| 0 <= j < self.keys@.len() implies #[trigger] key_index(self.keys@, self.keys@[j]) == j by {
                        lemma_key_index(self.keys@, j);
                    }
                    assert forall|x: K| #[trigger] self.keys@.contains(x) implies self.vals@[key_index(self.keys@, x)]
                        == old(self)@.insert(k, v)[x] by {
                        let j = choose|j: int| 0 <= j < self.keys@.len() && self.keys@[j] == x;
                        lemma_key_index(self.keys@, j);
                        if j < n {
                            assert(old_keys[j] == x);
                            lemma_key_index(old_keys, j);
                        }
                    }
                    assert forall|x: K| (old_keys.contains(x) || x == k) implies #[trigger] self.keys@.contains(x) by {
                        if x == k {
                            assert(self.keys@[n] == k);
                        } else if old_keys.contains(x) {
                            let j = choose|j: int| 0 <= j < old_keys.len() && old_keys[j] == x;
                            assert(self.keys@[j] == x);
                        }
                    }
                    assert(self@ =~= old(self)@.insert(k, v));
                }
            },
        }
    }

    /// Removes the entry of `k` and returns its value.
    pub fn remove(&mut self, k: &K) -> (r: Option<V>)
        requires
            old(self).wf(),
        ensures
            final(self).wf(),
            final(self)@ == old(self)@.remove(*k),
            match r {
                Some(v) => old(self)@.contains_key(*k) && v == old(self)@[*k],
                None => !old(self)@.contains_key(*k),
            },
    {
        match self.find(k) {
            Some(i) => {
                let ghost old_keys = self.keys@;
                let ghost old_vals = self.vals@;
                proof {
                    lemma_key_index(old_keys, i as int);
                }
                self.keys.remove(i);
                let v = self.vals.remove(i);
                proof {
                    assert(self.keys@ == old_keys.remove(i as int));
                    assert forall|a: int, b: int|
                        0 <= a < self.keys@.len() && 0 <= b < self.keys@.len() && a != b
                        implies self.keys@[a] != self.keys@[b] by {
                        let a0 = if a < i { a } else { a + 1 };
                        let b0 = if b < i { b } else { b + 1 };
                        assert(self.keys@[a] == old_keys[a0]);
                        assert(self.keys@[b] == old_keys[b0]);
                    }
                    assert forall|j: int| 0 <= j < self.keys@.len() implies #[trigger] key_index(self.keys@, self.keys@[j]) == j by {
                        lemma_key_index(self.keys@, j);
                    }
                    assert forall|x: K| #[trigger] self.keys@.contains(x) <==> old(self)@.remove(*k).contains_key(x) by {
                        if self.keys@.contains(x) {
                            let j = choose|j: int| 0 <= j < self.keys@.len() && self.keys@[j] == x;
                            let j0 = if j < i { j } else { j + 1 };
                            assert(old_keys[j0] == x);
                            assert(j0 != i);
                        }
                        if old(self)@.remove(*k).contains_key(x) {
                            let j0 = choose|j: int| 0 <= j < old_keys.len() && old_keys[j] == x;
                            assert(j0 != i);
                            let j = if j0 < i { j0 } else { j0 - 1 };
                            assert(self.keys@[j] == x);
                        }
                    }
                    assert forall|x: K| #[trigger] self.keys@.contains(x) implies self.vals@[key_index(self.keys@, x)]
                        == old(self)@[x] by {
                        let j = choose|j: int| 0 <= j < self.keys@.len() && self.keys@[j] == x;
                        lemma_key_index(self.keys@, j);
                        let j0 = if j < i { j } else { j + 1 };
                        assert(old_keys[j0] == x);
                        lemma_key_index(old_keys, j0);
                    }
                    assert(self@ =~= old(self)@.remove(*k));
                }
                Some(v)
            },
            None => {
                assert(self@ =~= old(self)@.remove(*k));
                None
            },
        }
    }

    /// Removes every entry.
    pub fn clear(&mut self)
        ensures
            final(self).wf(),
            final(self)@ == Map::<K, V>::empty(),
    {
        self.keys.clear();
        self.vals.clear();
        assert(self@ =~= Map::<K, V>::empty());
    }
}

/// A finite set, kept as a vector without duplicates.
#[derive(Clone, Debug, PartialEq, Eq)]
pub struct VecSet<K> {
    items: Vec<K>,
}

impl<K> View for VecSet<K> {
    type V = Set<K>;

    closed spec fn view(&self) -> Set<K> {
        self.items@.to_set()
    }
}

impl<K: KeyEq> VecSet<K> {
    pub closed spec fn wf(&self) -> bool {
        self.items@.no_duplicates()
    }

    /// The elements in storage order.
    pub closed spec fn item_seq(&self) -> Seq<K> {
        self.items@
    }

    pub proof fn lemma_items(&self)
        requires
            self.wf(),
        ensures
            self@ == self.item_seq().to_set(),
            self@.finite(),
            self.item_seq().no_duplicates(),
    {
    }

    pub fn new() -> (s: Self)
        ensures
            s.wf(),
            s@ == Set::<K>::empty(),
    {
        let s = VecSet { items: Vec::new() };
        assert(s@ =~= Set::<K>::empty());
        s
    }

    pub fn len(&self) -> (n: usize)
        requires
            self.wf(),
        ensures
            n == self.item_seq().len(),
    {
        self.items.len()
    }

    /// The element stored at position `i`.
    pub fn item_at(&self, i: usize) -> (k: &K)
        requires
            self.wf(),
            i < self.item_seq().len(),
        ensures
            *k == self.item_seq()[i as int],
            self@.contains(*k),
    {
        &self.items[i]
    }

    fn find(&self, k: &K) -> (r: Option<usize>)
        requires
            self.wf(),
        ensures
            match r {
                Some(i) => i < self.items@.len() && self.items@[i as int] == *k,
                None => !self.items@.contains(*k),
            },
    {
        let mut i: usize = 0;
        while i < self.items.len()
            invariant
                0 <= i <= self.items@.len(),
                forall|j: int| 0 <= j < i ==> self.items@[j] != *k,
            decreases self.items@.len() - i,
        {
            if self.items[i].key_eq(k) {
                return Some(i);
            }
            i += 1;
        }
        None
    }

    /// Whether `k` is an element.
    pub fn contains(&self, k: &K) -> (r: bool)
        requires
            self.wf(),
        ensures
            r == self@.contains(*k),
    {
        self.find(k).is_some()
    }

    /// Adds `k`; returns whether it was absent before.
    pub fn insert(&mut self, k: K) -> (r: bool)
        requires
            old(self).wf(),
        ensures
            final(self).wf(),
            final(self)@ == old(self)@.insert(k),
            r == !old(self)@.contains(k),
    {
        match self.find(&k) {
            Some(_) => {
                assert(self@ =~= old(self)@.insert(k));
                false
            },
            None => {
                let ghost old_items = self.items@;
                self.items.push(k);
                proof {
                    assert(self.items@ == old_items.push(k));
                    assert forall|x: K| #[trigger] self.items@.contains(x) <==> (old_items.contains(x) || x == k) by {
                        if self.items@.contains(x) {
                            let j = choose|j: int| 0 <= j < self.items@.len() && self.items@[j] == x;
                            if j < old_items.len() {
                                assert(old_items[j] == x);
                            }
                        }
                        if x == k {
                            assert(self.items@[old_items.len() as int] == k);
                        } else if old_items.contains(x) {
                            let j = choose|j: int| 0 <= j < old_items.len() && old_items[j] == x;
                            assert(self.items@[j] == x);
                        }
                    }
                    assert(self@ =~= old(self)@.insert(k));
                }
                true
            },
        }
    }

    /// Removes `k`; returns whether it was present.
    pub fn remove(&mut self, k: &K) -> (r: bool)
        requires
            old(self).wf(),
        ensures
            final(self).wf(),
            final(self)@ == old(self)@.remove(*k),
            r == old(self)@.contains(*k),
    {
        match self.find(k) {
            Some(i) => {
                let ghost old_items = self.items@;
                self.items.remove(i);
                proof {
                    assert(self.items@ == old_items.remove(i as int));
                    assert forall|a: int, b: int|
                        0 <= a < self.items@.len() && 0 <= b < self.items@.len() && a != b
                        implies self.items@[a] != self.items@[b] by {
                        let a0 = if a < i { a } else { a + 1 };
                        let b0 = if b < i { b } else { b + 1 };
                        assert(self.items@[a] == old_items[a0]);
                        assert(self.items@[b] == old_items[b0]);
                    }
                    assert forall|x: K| #[trigger] self.items@.contains(x) <==> (old_items.contains(x) && x != *k) by {
                        if self.items@.contains(x) {
                            let j = choose|j: int| 0 <= j < self.items@.len() && self.items@[j] == x;
                            let j0 = if j < i { j } else { j + 1 };
                            assert(old_items[j0] == x);
                        }
                        if old_items.contains(x) && x != *k {
                            let j0 = choose|j: int| 0 <= j < old_items.len() && old_items[j] == x;
                            let j = if j0 < i { j0 } else { j0 - 1 };
                            assert(self.items@[j] == x);
                        }
                    }
                    assert(self@ =~= old(self)@.remove(*k));
                }
                true
            },
            None => {
                assert(self@ =~= old(self)@.remove(*k));
                false
            },
        }
    }

    /// Removes every element.
    pub fn clear(&mut self)
        ensures
            final(self).wf(),
            final(self)@ == Set::<K>::empty(),
    {
        self.items.clear();
        assert(self@ =~= Set::<K>::empty());
    }
}

} // verus!
