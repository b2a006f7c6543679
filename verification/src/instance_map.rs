use vstd::prelude::*;

verus! {

/// The key of an instance: the path of sub-chip component indices that leads
/// to a blueprint, and a component index inside that blueprint.
pub type InstanceKey = (Vec<usize>, usize);

/// Whether two paths hold the same component indices.
pub fn same_path(a: &Vec<usize>, b: &Vec<usize>) -> (r: bool)
    ensures
        r == (a@ == b@),
{
    if a.len() != b.len() {
        return false;
    }
    let n = a.len();
    let mut i: usize = 0;
    while i < n
        invariant
            n == a@.len(),
            n == b@.len(),
            i <= n,
            forall|j: int| 0 <= j < i ==> a@[j] == b@[j],
        decreases n - i,
    {
        if a[i] != b[i] {
            return false;
        }
        i += 1;
    }
    assert(a@ =~= b@);
    true
}

/// A map from instance keys to values: records, for every primitive gate or
/// sub-chip that a compilation creates, where in the chip hierarchy it stands.
pub struct InstanceMap<V> {
    entries: Vec<(Vec<usize>, usize, V)>,
}

impl<V: View> InstanceMap<V> {
    pub closed spec fn key_at(&self, i: int) -> (Seq<usize>, usize) {
        (self.entries@[i].0@, self.entries@[i].1)
    }

    pub closed spec fn has_key(&self, k: (Seq<usize>, usize)) -> bool {
        exists|i: int| 0 <= i < self.entries@.len() && #[trigger] self.key_at(i) == k
    }

    /// No key is stored twice.
    pub closed spec fn wf(&self) -> bool {
        forall|i: int, j: int|
            0 <= i < self.entries@.len() && 0 <= j < self.entries@.len() && i != j
                ==> #[trigger] self.key_at(i) != #[trigger] self.key_at(j)
    }

    pub closed spec fn index_of(&self, k: (Seq<usize>, usize)) -> int {
        choose|i: int| 0 <= i < self.entries@.len() && #[trigger] self.key_at(i) == k
    }

    pub closed spec fn as_map(&self) -> Map<(Seq<usize>, usize), V::V> {
        Map::new(|k: (Seq<usize>, usize)| self.has_key(k), |k: (Seq<usize>, usize)| self.entries@[self.index_of(k)].2@)
    }

    /// An empty map.
    pub fn new() -> (m: Self)
        ensures
            m.wf(),
            m.as_map() == Map::<(Seq<usize>, usize), V::V>::empty(),
    {
        let m = InstanceMap { entries: Vec::new() };
        assert(m.as_map() =~= Map::<(Seq<usize>, usize), V::V>::empty());
        m
    }

    /// The number of keys.
    pub fn len(&self) -> (n: usize)
        requires
            self.wf(),
        ensures
            n == self.as_map().len(),
    {
        proof {
            self.lemma_dom_len();
        }
        self.entries.len()
    }

    proof fn lemma_dom_len(&self)
        requires
            self.wf(),
        ensures
            self.as_map().dom().finite(),
            self.as_map().len() == self.entries@.len(),
        decreases self.entries@.len(),
    {
        let keys = Seq::new(self.entries@.len(), |i: int| self.key_at(i));
        assert(keys.no_duplicates());
        assert forall|k: (Seq<usize>, usize)| #[trigger] keys.to_set().contains(k) == self.has_key(k) by {
            if self.has_key(k) {
                let i = choose|i: int| 0 <= i < self.entries@.len() && #[trigger] self.key_at(i) == k;
                assert(keys[i] == k);
            }
            if keys.to_set().contains(k) {
                let i = choose|i: int| 0 <= i < keys.len() && keys[i] == k;
                assert(self.key_at(i) == k);
            }
        }
        assert(self.as_map().dom() =~= keys.to_set());
        keys.unique_seq_to_set();
    }

    /// Finds the value stored under `key`.
    pub fn get(&self, key: &(Vec<usize>, usize)) -> (r: Option<&V>)
        requires
            self.wf(),
        ensures
            match r {
                Some(v) => self.as_map().contains_key((key.0@, key.1)) && v@ == self.as_map()[(
                    key.0@,
                    key.1,
                )],
                None => !self.as_map().contains_key((key.0@, key.1)),
            },
    {
        let n = self.entries.len();
        let mut i: usize = 0;
        while i < n
            invariant
                n == self.entries@.len(),
                i <= n,
                self.wf(),
                forall|j: int| 0 <= j < i ==> self.key_at(j) != (key.0@, key.1),
            decreases n - i,
        {
            if self.entries[i].1 == key.1 && same_path(&self.entries[i].0, &key.0) {
                proof {
                    assert(self.entries@[i as int].1 == key.1);
                    assert(self.entries@[i as int].0@ == key.0@);
                    assert(self.key_at(i as int) == (key.0@, key.1));
                    let c = self.index_of((key.0@, key.1));
                    assert(self.has_key((key.0@, key.1)));
                    assert(c == i);
                }
                return Some(&self.entries[i].2);
            }
            i += 1;
        }
        None
    }

    /// Stores `value` under `key`, replacing the value stored there before.
    pub fn insert(&mut self, key: (Vec<usize>, usize), value: V)
        requires
            old(self).wf(),
        ensures
            final(self).wf(),
            final(self).as_map() == old(self).as_map().insert((key.0@, key.1), value@),
    {
        let ghost k = (key.0@, key.1);
        let ghost old_map = self.as_map();
        let n = self.entries.len();
        let mut i: usize = 0;
        while i < n
            invariant
                n == self.entries@.len(),
                i <= n,
                self.wf(),
                k == (key.0@, key.1),
                old_map == old(self).as_map(),
                self.as_map() == old_map,
                forall|j: int| 0 <= j < i ==> self.key_at(j) != k,
            decreases n - i,
        {
            if self.entries[i].1 == key.1 && same_path(&self.entries[i].0, &key.0) {
                let ghost before = *self;
                self.entries.set(i, (key.0, key.1, value));
                proof {
                    assert(self.key_at(i as int) == k);
                    assert(before.entries@[i as int].0@ == key.0@);
                    assert(before.key_at(i as int) == k);
                    assert forall|a: int| 0 <= a < self.entries@.len() implies #[trigger] self.key_at(a)
                        == before.key_at(a) by {}
                    assert(self.wf());
                    assert forall|kk: (Seq<usize>, usize)| #[trigger] self.has_key(kk) == before.has_key(kk) by {
                        if self.has_key(kk) {
                            let a = choose|a: int| 0 <= a < self.entries@.len() && #[trigger] self.key_at(a) == kk;
                            if a == i {
                                assert(before.key_at(i as int) == kk);
                            } else {
                                assert(before.key_at(a) == kk);
                            }
                        }
                        if before.has_key(kk) {
                            let a = choose|a: int| 0 <= a < before.entries@.len() && #[trigger] before.key_at(a) == kk;
                            if a == i {
                                assert(self.key_at(i as int) == kk);
                            } else {
                                assert(self.key_at(a) == kk);
                            }
                        }
                    }
                    assert forall|kk: (Seq<usize>, usize)| self.has_key(kk) && kk != k
                        implies self.as_map()[kk] == before.as_map()[kk] by {
                        let a = self.index_of(kk);
                        let b = before.index_of(kk);
                        assert(before.has_key(kk));
                        assert(a != i);
                        assert(before.key_at(a) == kk);
                        assert(a == b);
                    }
                    assert(self.has_key(k));
                    assert(self.index_of(k) == i);
                    assert(self.as_map() =~= old_map.insert(k, value@));
                }
                return;
            }
            i += 1;
        }
        let ghost before = *self;
        self.entries.push((key.0, key.1, value));
        proof {
            let last = n as int;
            assert(self.key_at(last) == k);
            assert forall|a: int| 0 <= a < n implies #[trigger] self.key_at(a) == before.key_at(a) by {}
            assert forall|kk: (Seq<usize>, usize)| #[trigger] self.has_key(kk) == (before.has_key(kk) || kk == k) by {
                if self.has_key(kk) {
                    let a = choose|a: int| 0 <= a < self.entries@.len() && #[trigger] self.key_at(a) == kk;
                    if a < n {
                        assert(before.key_at(a) == kk);
                    }
                }
                if before.has_key(kk) {
                    let a = choose|a: int| 0 <= a < before.entries@.len() && #[trigger] before.key_at(a) == kk;
                    assert(self.key_at(a) == kk);
                }
            }
            assert forall|kk: (Seq<usize>, usize)| self.has_key(kk) && kk != k
                implies self.as_map()[kk] == before.as_map()[kk] by {
                let a = self.index_of(kk);
                let b = before.index_of(kk);
                assert(before.has_key(kk));
                assert(before.key_at(b) == kk);
                assert(self.key_at(b) == kk);
                assert(a != last);
                assert(a == b);
            }
            assert(self.has_key(k));
            assert(self.index_of(k) == last);
            assert(self.as_map() =~= old_map.insert(k, value@));
        }
    }
}

impl<V: View> View for InstanceMap<V> {
    type V = Map<(Seq<usize>, usize), V::V>;

    open spec fn view(&self) -> Map<(Seq<usize>, usize), V::V> {
        self.as_map()
    }
}


/// A map from canvas ports `(component id, port index)` to gate indices.
pub struct PortMap {
    entries: Vec<(usize, usize, usize)>,
}

impl PortMap {
    pub closed spec fn key_at(&self, i: int) -> (usize, usize) {
        (self.entries@[i].0, self.entries@[i].1)
    }

    pub closed spec fn has_key(&self, k: (usize, usize)) -> bool {
        exists|i: int| 0 <= i < self.entries@.len() && #[trigger] self.key_at(i) == k
    }

    /// No port is stored twice.
    pub closed spec fn wf(&self) -> bool {
        forall|i: int, j: int|
            0 <= i < self.entries@.len() && 0 <= j < self.entries@.len() && i != j
                ==> #[trigger] self.key_at(i) != #[trigger] self.key_at(j)
    }

    pub closed spec fn index_of(&self, k: (usize, usize)) -> int {
        choose|i: int| 0 <= i < self.entries@.len() && #[trigger] self.key_at(i) == k
    }

    pub closed spec fn as_map(&self) -> Map<(usize, usize), usize> {
        Map::new(|k: (usize, usize)| self.has_key(k), |k: (usize, usize)| self.entries@[self.index_of(k)].2)
    }

    /// An empty map.
    pub fn new() -> (m: Self)
        ensures
            m.wf(),
            m@ == Map::<(usize, usize), usize>::empty(),
    {
        let m = PortMap { entries: Vec::new() };
        assert(m.as_map() =~= Map::<(usize, usize), usize>::empty());
        m
    }

    /// The index stored for `key`.
    pub fn get(&self, key: (usize, usize)) -> (r: Option<usize>)
        requires
            self.wf(),
        ensures
            match r {
                Some(v) => self@.contains_key(key) && v == self@[key],
                None => !self@.contains_key(key),
            },
    {
        let n = self.entries.len();
        let mut i: usize = 0;
        while i < n
            invariant
                n == self.entries@.len(),
                i <= n,
                self.wf(),
                forall|j: int| 0 <= j < i ==> self.key_at(j) != key,
            decreases n - i,
        {
            if self.entries[i].0 == key.0 && self.entries[i].1 == key.1 {
                proof {
                    assert(self.key_at(i as int) == key);
                    assert(self.has_key(key));
                    assert(self.index_of(key) == i);
                }
                return Some(self.entries[i].2);
            }
            i += 1;
        }
        None
    }

    /// Stores `value` for `key`, replacing the value stored there before.
    pub fn insert(&mut self, key: (usize, usize), value: usize)
        requires
            old(self).wf(),
        ensures
            final(self).wf(),
            final(self)@ == old(self)@.insert(key, value),
    {
        let ghost old_map = self.as_map();
        let n = self.entries.len();
        let mut i: usize = 0;
        while i < n
            invariant
                n == self.entries@.len(),
                i <= n,
                self.wf(),
                old_map == old(self).as_map(),
                self.as_map() == old_map,
                forall|j: int| 0 <= j < i ==> self.key_at(j) != key,
            decreases n - i,
        {
            if self.entries[i].0 == key.0 && self.entries[i].1 == key.1 {
                let ghost before = *self;
                self.entries.set(i, (key.0, key.1, value));
                proof {
                    assert(before.key_at(i as int) == key);
                    assert forall|a: int| 0 <= a < self.entries@.len() implies #[trigger] self.key_at(a)
                        == before.key_at(a) by {}
                    assert forall|kk: (usize, usize)| #[trigger] self.has_key(kk) == before.has_key(kk) by {
                        if self.has_key(kk) {
                            let a = choose|a: int| 0 <= a < self.entries@.len() && #[trigger] self.key_at(a) == kk;
                            assert(before.key_at(a) == kk);
                        }
                        if before.has_key(kk) {
                            let a = choose|a: int| 0 <= a < before.entries@.len() && #[trigger] before.key_at(a) == kk;
                            assert(self.key_at(a) == kk);
                        }
                    }
                    assert forall|kk: (usize, usize)| self.has_key(kk) && kk != key
                        implies self.as_map()[kk] == before.as_map()[kk] by {
                        let a = self.index_of(kk);
                        let b = before.index_of(kk);
                        assert(before.has_key(kk));
                        assert(before.key_at(a) == kk);
                        assert(a != i);
                        assert(a == b);
                    }
                    assert(self.has_key(key));
                    assert(self.index_of(key) == i);
                    assert(self.as_map() =~= old_map.insert(key, value));
                }
                return;
            }
            i += 1;
        }
        let ghost before = *self;
        self.entries.push((key.0, key.1, value));
        proof {
            let last = n as int;
            assert(self.key_at(last) == key);
            assert forall|a: int| 0 <= a < n implies #[trigger] self.key_at(a) == before.key_at(a) by {}
            assert forall|kk: (usize, usize)| #[trigger] self.has_key(kk) == (before.has_key(kk) || kk == key) by {
                if self.has_key(kk) {
                    let a = choose|a: int| 0 <= a < self.entries@.len() && #[trigger] self.key_at(a) == kk;
                    if a < n {
                        assert(before.key_at(a) == kk);
                    }
                }
                if before.has_key(kk) {
                    let a = choose|a: int| 0 <= a < before.entries@.len() && #[trigger] before.key_at(a) == kk;
                    assert(self.key_at(a) == kk);
                }
            }
            assert forall|kk: (usize, usize)| self.has_key(kk) && kk != key
                implies self.as_map()[kk] == before.as_map()[kk] by {
                let a = self.index_of(kk);
                let b = before.index_of(kk);
                assert(before.has_key(kk));
                assert(before.key_at(b) == kk);
                assert(self.key_at(b) == kk);
                assert(a != last);
                assert(a == b);
            }
            assert(self.has_key(key));
            assert(self.index_of(key) == last);
            assert(self.as_map() =~= old_map.insert(key, value));
        }
    }
}

impl View for PortMap {
    type V = Map<(usize, usize), usize>;

    open spec fn view(&self) -> Map<(usize, usize), usize> {
        self.as_map()
    }
}

} // verus!
