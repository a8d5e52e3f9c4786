//! Deterministic association containers for node ids.
//!
//! The tree model keys everything by `u64` node ids. These containers are
//! backed by plain vectors with pairwise-distinct keys, so every walk over
//! them is deterministic (insertion order) while lookups still behave like a
//! finite map or set.

use vstd::prelude::*;

verus! {

/// The sequence of keys of an entry list.
pub open spec fn keys_of<V>(s: Seq<(u64, V)>) -> Seq<u64> {
    s.map_values(|p: (u64, V)| p.0)
}

/// The finite map an entry list denotes; a later entry for a key wins.
pub open spec fn map_of<V>(s: Seq<(u64, V)>) -> Map<u64, V>
    decreases s.len(),
{
    if s.len() == 0 {
        Map::empty()
    } else {
        map_of(s.drop_last()).insert(s.last().0, s.last().1)
    }
}

/// A key is in the map exactly when it occurs in the entry list.
pub proof fn lemma_map_of_contains<V>(s: Seq<(u64, V)>, k: u64)
    ensures
        map_of(s).contains_key(k) <==> keys_of(s).contains(k),
    decreases s.len(),
{
    if s.len() == 0 {
    } else {
        lemma_map_of_contains(s.drop_last(), k);
        assert(keys_of(s.drop_last()) =~= keys_of(s).drop_last());
        if keys_of(s).contains(k) {
            let i = choose|i: int| 0 <= i < keys_of(s).len() && keys_of(s)[i] == k;
            if i < s.len() - 1 {
                assert(keys_of(s).drop_last()[i] == k);
            }
        }
        if keys_of(s).drop_last().contains(k) {
            let i = choose|i: int|
                0 <= i < keys_of(s).drop_last().len() && keys_of(s).drop_last()[i] == k;
            assert(keys_of(s)[i] == k);
        }
        assert(keys_of(s).last() == s.last().0);
        if keys_of(s).contains(s.last().0) {
        } else {
            assert(keys_of(s)[s.len() - 1] == s.last().0);
        }
    }
}

/// With pairwise-distinct keys, each entry is the map's value for its key.
pub proof fn lemma_map_of_index<V>(s: Seq<(u64, V)>, i: int)
    requires
        keys_of(s).no_duplicates(),
        0 <= i < s.len(),
    ensures
        map_of(s).contains_key(s[i].0),
        map_of(s)[s[i].0] == s[i].1,
    decreases s.len(),
{
    if i == s.len() - 1 {
    } else {
        assert(keys_of(s.drop_last()) =~= keys_of(s).drop_last());
        assert(keys_of(s).drop_last().no_duplicates()) by {
            assert forall|a: int, b: int|
                0 <= a < keys_of(s).drop_last().len() && 0 <= b < keys_of(s).drop_last().len()
                    && a != b implies keys_of(s).drop_last()[a] != keys_of(s).drop_last()[b] by {
                assert(keys_of(s)[a] == keys_of(s).drop_last()[a]);
                assert(keys_of(s)[b] == keys_of(s).drop_last()[b]);
            }
        }
        lemma_map_of_index(s.drop_last(), i);
        assert(s.drop_last()[i] == s[i]);
        assert(keys_of(s)[i] != keys_of(s)[s.len() - 1]);
        assert(s[i].0 != s.last().0);
    }
}

/// A map from `u64` ids to values, backed by a vector of entries with
/// pairwise-distinct keys, kept in insertion order.
pub struct IdMap<V> {
    entries: Vec<(u64, V)>,
}

impl<V> View for IdMap<V> {
    type V = Seq<(u64, V)>;

    closed spec fn view(&self) -> Seq<(u64, V)> {
        self.entries@
    }
}

impl<V> IdMap<V> {
    /// The keys, in insertion order.
    pub open spec fn keys(&self) -> Seq<u64> {
        keys_of(self@)
    }

    /// The finite map this container denotes.
    pub open spec fn m(&self) -> Map<u64, V> {
        map_of(self@)
    }

    /// Well-formed: no key occurs twice.
    pub open spec fn wf(&self) -> bool {
        self.keys().no_duplicates()
    }

    pub fn new() -> (r: IdMap<V>)
        ensures
            r@ =~= Seq::<(u64, V)>::empty(),
            r.m() =~= Map::<u64, V>::empty(),
            r.wf(),
    {
        IdMap { entries: Vec::new() }
    }

    pub fn len(&self) -> (n: usize)
        ensures
            n == self@.len(),
    {
        self.entries.len()
    }

    pub fn is_empty(&self) -> (b: bool)
        ensures
            b <==> self@.len() == 0,
            b <==> (self.m() =~= Map::<u64, V>::empty()),
    {
        proof {
            if self@.len() > 0 {
                lemma_map_of_contains(self@, self@.last().0);
                assert(keys_of(self@)[self@.len() - 1] == self@.last().0);
                assert(self.m().contains_key(self@.last().0));
            }
        }
        self.entries.len() == 0
    }

    /// The key of the entry at a position of the walk order.
    pub fn key_at(&self, i: usize) -> (k: u64)
        requires
            i < self@.len(),
        ensures
            k == self@[i as int].0,
    {
        self.entries[i].0
    }

    /// The value of the entry at a position of the walk order.
    pub fn val_at(&self, i: usize) -> (v: &V)
        requires
            i < self@.len(),
        ensures
            *v == self@[i as int].1,
    {
        &self.entries[i].1
    }

    /// Position of a key in the walk order, if present.
    fn position(&self, k: u64) -> (r: Option<usize>)
        ensures
            match r {
                Some(i) => i < self@.len() && self@[i as int].0 == k,
                None => !self.keys().contains(k),
            },
    {
        let n = self.entries.len();
        let mut i: usize = 0;
        while i < n
            invariant
                n == self@.len(),
                i <= n,
                forall|j: int| 0 <= j < i ==> self@[j].0 != k,
            decreases n - i,
        {
            if self.entries[i].0 == k {
                return Some(i);
            }
            i += 1;
        }
        proof {
            if self.keys().contains(k) {
                let j = choose|j: int| 0 <= j < self.keys().len() && self.keys()[j] == k;
                assert(self@[j].0 == k);
            }
        }
        None
    }

    pub fn contains_key(&self, k: u64) -> (b: bool)
        requires
            self.wf(),
        ensures
            b == self.m().contains_key(k),
    {
        proof {
            lemma_map_of_contains(self@, k);
        }
        match self.position(k) {
            Some(i) => {
                proof {
                    assert(self.keys()[i as int] == k);
                }
                true
            },
            None => false,
        }
    }

    pub fn get(&self, k: u64) -> (r: Option<&V>)
        requires
            self.wf(),
        ensures
            match r {
                Some(v) => self.m().contains_key(k) && *v == self.m()[k],
                None => !self.m().contains_key(k),
            },
    {
        proof {
            lemma_map_of_contains(self@, k);
        }
        match self.position(k) {
            Some(i) => {
                proof {
                    lemma_map_of_index(self@, i as int);
                }
                Some(&self.entries[i].1)
            },
            None => None,
        }
    }

    /// Insert or overwrite. A fresh key is appended to the walk order; an
    /// existing key keeps its position and gets the new value.
    pub fn insert(&mut self, k: u64, v: V)
        requires
            old(self).wf(),
        ensures
            final(self).wf(),
            final(self).m() == old(self).m().insert(k, v),
            old(self).m().contains_key(k) ==> final(self).keys() =~= old(self).keys(),
            !old(self).m().contains_key(k) ==> final(self)@ =~= old(self)@.push((k, v)),
    {
        proof {
            lemma_map_of_contains(self@, k);
        }
        match self.position(k) {
            Some(i) => {
                proof {
                    assert(self.keys()[i as int] == k);
                }
                self.entries[i] = (k, v);
                proof {
                    assert(final(self).keys() =~= old(self).keys());
                    lemma_map_of_update(old(self)@, i as int, v);
                }
            },
            None => {
                self.entries.push((k, v));
                proof {
                    assert(self@.drop_last() =~= old(self)@);
                    assert(final(self).keys() =~= old(self).keys().push(k));
                    assert(final(self).keys().no_duplicates());
                }
            },
        }
    }

    /// Remove a key and hand its value back; the other entries keep their
    /// relative order.
    pub fn take(&mut self, k: u64) -> (r: Option<V>)
        requires
            old(self).wf(),
        ensures
            final(self).wf(),
            final(self).m() == old(self).m().remove(k),
            !final(self).keys().contains(k),
            match r {
                Some(v) => old(self).m().contains_key(k) && v == old(self).m()[k]
                    && exists|i: int|
                    0 <= i < old(self)@.len() && old(self)@[i].0 == k
                        && final(self)@ =~= old(self)@.remove(i),
                None => !old(self).m().contains_key(k) && final(self)@ =~= old(self)@,
            },
    {
        proof {
            lemma_map_of_contains(self@, k);
        }
        match self.position(k) {
            Some(i) => {
                proof {
                    assert(self.keys()[i as int] == k);
                    lemma_map_of_index(self@, i as int);
                }
                let pair = self.entries.remove(i);
                proof {
                    assert(self.keys() =~= old(self).keys().remove(i as int));
                    lemma_keys_remove_no_duplicates(old(self).keys(), i as int);
                    lemma_map_of_remove(old(self)@, i as int);
                    if self.keys().contains(k) {
                        let j = choose|j: int|
                            0 <= j < self.keys().len() && self.keys()[j] == k;
                        if j < i {
                            assert(old(self).keys()[j] == k);
                        } else {
                            assert(old(self).keys()[j + 1] == k);
                        }
                    }
                    assert(!self.keys().contains(k));
                }
                Some(pair.1)
            },
            None => {
                proof {
                    assert(final(self).m() =~= old(self).m().remove(k));
                }
                None
            },
        }
    }

}

/// Overwriting the value at an entry position updates the map at that key.
proof fn lemma_map_of_update<V>(s: Seq<(u64, V)>, i: int, v: V)
    requires
        keys_of(s).no_duplicates(),
        0 <= i < s.len(),
    ensures
        map_of(s.update(i, (s[i].0, v))) == map_of(s).insert(s[i].0, v),
    decreases s.len(),
{
    let t = s.update(i, (s[i].0, v));
    if i == s.len() - 1 {
        assert(t.drop_last() =~= s.drop_last());
        assert(map_of(t) =~= map_of(s).insert(s[i].0, v));
    } else {
        assert(keys_of(s.drop_last()) =~= keys_of(s).drop_last());
        assert(keys_of(s).drop_last().no_duplicates()) by {
            assert forall|a: int, b: int|
                0 <= a < keys_of(s).drop_last().len() && 0 <= b < keys_of(s).drop_last().len()
                    && a != b implies keys_of(s).drop_last()[a] != keys_of(s).drop_last()[b] by {
                assert(keys_of(s)[a] == keys_of(s).drop_last()[a]);
                assert(keys_of(s)[b] == keys_of(s).drop_last()[b]);
            }
        }
        lemma_map_of_update(s.drop_last(), i, v);
        assert(t.drop_last() =~= s.drop_last().update(i, (s[i].0, v)));
        assert(t.last() == s.last());
        assert(keys_of(s)[i] != keys_of(s)[s.len() - 1]);
        assert(s[i].0 != s.last().0);
        assert(map_of(t) =~= map_of(s).insert(s[i].0, v));
    }
}

/// Removing an entry of a duplicate-free list removes its key from the map.
proof fn lemma_map_of_remove<V>(s: Seq<(u64, V)>, i: int)
    requires
        keys_of(s).no_duplicates(),
        0 <= i < s.len(),
    ensures
        map_of(s.remove(i)) == map_of(s).remove(s[i].0),
    decreases s.len(),
{
    let t = s.remove(i);
    if i == s.len() - 1 {
        assert(t =~= s.drop_last());
        assert(map_of(s) == map_of(s.drop_last()).insert(s.last().0, s.last().1));
        lemma_map_of_contains(s.drop_last(), s.last().0);
        assert(keys_of(s.drop_last()) =~= keys_of(s).drop_last());
        if keys_of(s).drop_last().contains(s.last().0) {
            let j = choose|j: int|
                0 <= j < keys_of(s).drop_last().len() && keys_of(s).drop_last()[j] == s.last().0;
            assert(keys_of(s)[j] == keys_of(s)[s.len() - 1]);
        }
        assert(!map_of(s.drop_last()).contains_key(s.last().0));
        assert(map_of(t) =~= map_of(s).remove(s[i].0));
    } else {
        assert(keys_of(s.drop_last()) =~= keys_of(s).drop_last());
        assert(keys_of(s).drop_last().no_duplicates()) by {
            assert forall|a: int, b: int|
                0 <= a < keys_of(s).drop_last().len() && 0 <= b < keys_of(s).drop_last().len()
                    && a != b implies keys_of(s).drop_last()[a] != keys_of(s).drop_last()[b] by {
                assert(keys_of(s)[a] == keys_of(s).drop_last()[a]);
                assert(keys_of(s)[b] == keys_of(s).drop_last()[b]);
            }
        }
        lemma_map_of_remove(s.drop_last(), i);
        assert(t.drop_last() =~= s.drop_last().remove(i));
        assert(t.last() == s.last());
        assert(keys_of(s)[i] != keys_of(s)[s.len() - 1]);
        assert(s[i].0 != s.last().0);
        assert(map_of(t) =~= map_of(s).remove(s[i].0));
    }
}

/// Removing a position of a duplicate-free sequence keeps it duplicate-free.
proof fn lemma_keys_remove_no_duplicates(s: Seq<u64>, i: int)
    requires
        s.no_duplicates(),
        0 <= i < s.len(),
    ensures
        s.remove(i).no_duplicates(),
{
    let t = s.remove(i);
    assert forall|a: int, b: int|
        0 <= a < t.len() && 0 <= b < t.len() && a != b implies t[a] != t[b] by {
        let a0 = if a < i { a } else { a + 1 };
        let b0 = if b < i { b } else { b + 1 };
        assert(t[a] == s[a0]);
        assert(t[b] == s[b0]);
    }
}

/// A set of `u64` ids backed by a duplicate-free vector in insertion order.
pub struct IdSet {
    items: Vec<u64>,
}

impl View for IdSet {
    type V = Seq<u64>;

    closed spec fn view(&self) -> Seq<u64> {
        self.items@
    }
}

impl IdSet {
    /// The finite set this container denotes.
    pub open spec fn s(&self) -> Set<u64> {
        self@.to_set()
    }

    pub open spec fn wf(&self) -> bool {
        self@.no_duplicates()
    }

    pub fn new() -> (r: IdSet)
        ensures
            r@ =~= Seq::<u64>::empty(),
            r.s() =~= Set::<u64>::empty(),
            r.wf(),
    {
        proof {
            assert(Seq::<u64>::empty().to_set() =~= Set::<u64>::empty());
        }
        IdSet { items: Vec::new() }
    }

    /// A set holding one id.
    pub fn single(x: u64) -> (r: IdSet)
        ensures
            r@ =~= seq![x],
            r.s() =~= set![x],
            r.wf(),
    {
        let mut items = Vec::new();
        items.push(x);
        proof {
            assert(items@ =~= seq![x]);
            assert forall|y: u64| items@.to_set().contains(y) implies y == x by {
                let j = choose|j: int| 0 <= j < items@.len() && items@[j] == y;
            }
            assert(items@[0] == x);
            assert(items@.contains(x));
            assert(items@.to_set() =~= set![x]);
        }
        IdSet { items }
    }

    pub fn len(&self) -> (n: usize)
        ensures
            n == self@.len(),
    {
        self.items.len()
    }

    pub fn is_empty(&self) -> (b: bool)
        ensures
            b <==> self@.len() == 0,
            b <==> (self.s() =~= Set::<u64>::empty()),
    {
        proof {
            if self@.len() > 0 {
                assert(self@.contains(self@[0]));
                assert(self.s().contains(self@[0]));
            } else {
                assert(self@ =~= Seq::<u64>::empty());
                assert(self.s() =~= Set::<u64>::empty());
            }
        }
        self.items.len() == 0
    }

    pub fn item_at(&self, i: usize) -> (x: u64)
        requires
            i < self@.len(),
        ensures
            x == self@[i as int],
            self.s().contains(x),
    {
        proof {
            assert(self@.contains(self@[i as int]));
        }
        self.items[i]
    }

    fn position(&self, x: u64) -> (r: Option<usize>)
        ensures
            match r {
                Some(i) => i < self@.len() && self@[i as int] == x,
                None => !self@.contains(x),
            },
    {
        let n = self.items.len();
        let mut i: usize = 0;
        while i < n
            invariant
                n == self@.len(),
                i <= n,
                forall|j: int| 0 <= j < i ==> self@[j] != x,
            decreases n - i,
        {
            if self.items[i] == x {
                return Some(i);
            }
            i += 1;
        }
        None
    }

    pub fn contains(&self, x: u64) -> (b: bool)
        ensures
            b == self.s().contains(x),
    {
        match self.position(x) {
            Some(i) => {
                proof {
                    assert(self@.contains(x));
                }
                true
            },
            None => false,
        }
    }

    /// Add an id; already-present ids leave the set unchanged.
    pub fn insert(&mut self, x: u64)
        requires
            old(self).wf(),
        ensures
            final(self).wf(),
            final(self).s() == old(self).s().insert(x),
            old(self).s().contains(x) ==> final(self)@ =~= old(self)@,
            !old(self).s().contains(x) ==> final(self)@ =~= old(self)@.push(x),
    {
        match self.position(x) {
            Some(i) => {
                proof {
                    assert(old(self)@.contains(x));
                    assert(final(self).s() =~= old(self).s().insert(x));
                }
            },
            None => {
                self.items.push(x);
                proof {
                    assert(final(self)@.drop_last() =~= old(self)@);
                    assert(final(self)@.no_duplicates());
                    assert forall|y: u64| final(self).s().contains(y) implies old(self).s().insert(x).contains(y) by {
                        let j = choose|j: int| 0 <= j < final(self)@.len() && final(self)@[j] == y;
                        if j < old(self)@.len() {
                            assert(old(self)@.contains(y));
                        }
                    }
                    assert forall|y: u64| old(self).s().insert(x).contains(y) implies final(self).s().contains(y) by {
                        if y == x {
                            assert(final(self)@[final(self)@.len() - 1] == x);
                            assert(final(self)@.contains(x));
                        } else {
                            let j = choose|j: int| 0 <= j < old(self)@.len() && old(self)@[j] == y;
                            assert(final(self)@[j] == y);
                        }
                    }
                    assert(final(self).s() =~= old(self).s().insert(x));
                }
            },
        }
    }

    /// Take an id out; absent ids leave the set unchanged.
    pub fn remove(&mut self, x: u64)
        requires
            old(self).wf(),
        ensures
            final(self).wf(),
            final(self).s() == old(self).s().remove(x),
            !old(self).s().contains(x) ==> final(self)@ =~= old(self)@,
            old(self).s().contains(x) ==> exists|i: int|
                0 <= i < old(self)@.len() && old(self)@[i] == x && final(self)@ =~= old(self)@.remove(i),
    {
        match self.position(x) {
            Some(i) => {
                self.items.remove(i);
                proof {
                    lemma_keys_remove_no_duplicates(old(self)@, i as int);
                    assert forall|y: u64| final(self).s().contains(y) implies old(self).s().remove(x).contains(y) by {
                        let j = choose|j: int| 0 <= j < final(self)@.len() && final(self)@[j] == y;
                        let j0 = if j < i { j } else { j + 1 };
                        assert(old(self)@[j0] == y);
                        assert(old(self)@.contains(y));
                        assert(y != x) by {
                            if y == x {
                                assert(old(self)@[j0] == old(self)@[i as int]);
                            }
                        }
                    }
                    assert forall|y: u64| old(self).s().remove(x).contains(y) implies final(self).s().contains(y) by {
                        let j = choose|j: int| 0 <= j < old(self)@.len() && old(self)@[j] == y;
                        let j1 = if j < i { j } else { j - 1 };
                        assert(final(self)@[j1] == y);
                    }
                    assert(final(self).s() =~= old(self).s().remove(x));
                }
            },
            None => {
                proof {
                    assert(final(self).s() =~= old(self).s().remove(x));
                }
            },
        }
    }
}

} // verus!
