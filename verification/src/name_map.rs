//! A map from file names to values, kept in insertion order.

use vstd::prelude::*;
use crate::net::{PeerAddr, copy_peers};

verus! {

/// A map keyed by file name. Each name occurs at most once; the map is a
/// list of entries so that it can be walked in a fixed order.
pub struct NameMap<V> {
    keys: Vec<String>,
    values: Vec<V>,
}

/// The names of a list of strings, as character sequences.
pub open spec fn names_of(keys: Seq<String>) -> Seq<Seq<char>> {
    keys.map_values(|k: String| k@)
}

impl<V> View for NameMap<V> {
    type V = Map<Seq<char>, V>;

    closed spec fn view(&self) -> Map<Seq<char>, V> {
        Map::new(
            |k: Seq<char>| self.key_seq().contains(k),
            |k: Seq<char>| self.values@[self.key_seq().index_of(k)],
        )
    }
}

impl<V> NameMap<V> {
    /// The names of the entries, in the map's order.
    pub closed spec fn key_seq(&self) -> Seq<Seq<char>> {
        names_of(self.keys@)
    }

    /// The values of the entries, in the map's order.
    pub closed spec fn value_seq(&self) -> Seq<V> {
        self.values@
    }

    /// The entries line up and no name occurs twice.
    pub closed spec fn wf(&self) -> bool {
        &&& self.keys@.len() == self.values@.len()
        &&& self.key_seq().no_duplicates()
    }

    proof fn lemma_index(&self, i: int)
        requires
            self.wf(),
            0 <= i < self.keys@.len(),
        ensures
            self.key_seq().index_of(self.key_seq()[i]) == i,
            self@.dom().contains(self.key_seq()[i]),
            self@[self.key_seq()[i]] == self.values@[i],
    {
        let k = self.key_seq()[i];
        assert(self.key_seq().contains(k));
        let j = self.key_seq().index_of(k);
        assert(self.key_seq()[j] == k);
    }

    /// The order of the entries is the order of `key_seq`, and the view is
    /// made of them.
    pub proof fn lemma_view(&self)
        requires
            self.wf(),
        ensures
            self.key_seq().to_set() == self@.dom(),
            self.key_seq().no_duplicates(),
            self.key_seq().len() == self.value_seq().len(),
            forall|i: int|
                0 <= i < self.key_seq().len() ==> self@[#[trigger] self.key_seq()[i]]
                    == self.value_seq()[i],
            self@.dom().finite(),
            self@.dom().len() == self.key_seq().len(),
    {
        assert forall|i: int| 0 <= i < self.key_seq().len() implies self@[
            #[trigger] self.key_seq()[i]] == self.value_seq()[i] by {
            self.lemma_index(i);
        }
        assert(self.key_seq().to_set() =~= self@.dom());
        self.key_seq().unique_seq_to_set();
    }

    /// An empty map.
    pub fn new() -> (m: Self)
        ensures
            m.wf(),
            m@ == Map::<Seq<char>, V>::empty(),
            m.key_seq().len() == 0,
    {
        let m = NameMap { keys: Vec::new(), values: Vec::new() };
        assert(m@ =~= Map::<Seq<char>, V>::empty());
        m
    }

    /// Number of entries.
    pub fn len(&self) -> (n: usize)
        requires
            self.wf(),
        ensures
            n == self@.dom().len(),
            n == self.key_seq().len(),
    {
        proof {
            self.lemma_view();
        }
        self.keys.len()
    }

    /// Position of `k` among the entries, if it is there.
    fn find(&self, k: &String) -> (r: Option<usize>)
        requires
            self.wf(),
        ensures
            match r {
                Some(i) => i < self.keys@.len() && self.key_seq()[i as int] == k@,
                None => !self@.dom().contains(k@),
            },
    {
        let mut i: usize = 0;
        while i < self.keys.len()
            invariant
                self.wf(),
                i <= self.keys@.len(),
                forall|j: int| 0 <= j < i ==> self.key_seq()[j] != k@,
            decreases self.keys@.len() - i,
        {
            if self.keys[i] == *k {
                return Some(i);
            }
            i = i + 1;
        }
        None
    }

    /// Whether the map has an entry for `k`.
    pub fn contains_key(&self, k: &String) -> (b: bool)
        requires
            self.wf(),
        ensures
            b == self@.dom().contains(k@),
    {
        match self.find(k) {
            Some(i) => {
                proof {
                    self.lemma_index(i as int);
                }
                true
            },
            None => false,
        }
    }

    /// The value stored for `k`, if any.
    pub fn get(&self, k: &String) -> (r: Option<&V>)
        requires
            self.wf(),
        ensures
            match r {
                Some(v) => self@.dom().contains(k@) && *v == self@[k@],
                None => !self@.dom().contains(k@),
            },
    {
        match self.find(k) {
            Some(i) => {
                proof {
                    self.lemma_index(i as int);
                }
                Some(&self.values[i])
            },
            None => None,
        }
    }

    /// Stores `v` for `k`, replacing the value that `k` had. An existing
    /// entry keeps its place; a new one goes last.
    pub fn insert(&mut self, k: String, v: V)
        requires
            old(self).wf(),
        ensures
            final(self).wf(),
            final(self)@ == old(self)@.insert(k@, v),
            old(self)@.dom().contains(k@) ==> final(self).key_seq() == old(self).key_seq(),
            !old(self)@.dom().contains(k@) ==> final(self).key_seq() == old(self).key_seq().push(
                k@,
            ),
    {
        let ghost old_self = *self;
        match self.find(&k) {
            Some(i) => {
                self.values.set(i, v);
                proof {
                    assert(self.key_seq() == old_self.key_seq());
                    assert forall|key: Seq<char>|
                        #[trigger] self@.dom().contains(key) implies self@[key] == old_self@.insert(
                        k@,
                        v,
                    )[key] by {
                        let j = self.key_seq().index_of(key);
                        assert(self.key_seq().contains(key));
                        assert(0 <= j < self.key_seq().len() && self.key_seq()[j] == key);
                        self.lemma_index(j);
                        old_self.lemma_index(j);
                        old_self.lemma_index(i as int);
                    }
                    assert(self@ =~= old_self@.insert(k@, v));
                }
            },
            None => {
                let ghost kv = k@;
                self.keys.push(k);
                self.values.push(v);
                proof {
                    assert(self.key_seq() =~= old_self.key_seq().push(kv));
                    assert forall|key: Seq<char>|
                        #[trigger] self@.dom().contains(key) implies self@[key] == old_self@.insert(
                        kv,
                        v,
                    )[key] by {
                        let j = self.key_seq().index_of(key);
                        assert(self.key_seq().contains(key));
                        self.lemma_index(j);
                        if j < old_self.key_seq().len() {
                            old_self.lemma_index(j);
                        }
                    }
                    assert forall|key: Seq<char>|
                        #[trigger] old_self@.insert(kv, v).dom().contains(key) implies self@.dom().contains(
                        key,
                    ) by {
                        if key != kv {
                            let j = old_self.key_seq().index_of(key);
                            assert(old_self.key_seq().contains(key));
                            assert(self.key_seq()[j] == key);
                        } else {
                            assert(self.key_seq()[old_self.key_seq().len() as int] == kv);
                        }
                    }
                    assert(self@ =~= old_self@.insert(kv, v));
                }
            },
        }
    }

    /// Removes the entry of `k` and hands its value back; the other entries
    /// keep their order.
    pub fn remove(&mut self, k: &String) -> (r: Option<V>)
        requires
            old(self).wf(),
        ensures
            final(self).wf(),
            final(self)@ == old(self)@.remove(k@),
            match r {
                Some(v) => old(self)@.dom().contains(k@) && v == old(self)@[k@],
                None => !old(self)@.dom().contains(k@),
            },
    {
        let ghost old_self = *self;
        match self.find(k) {
            Some(i) => {
                proof {
                    old_self.lemma_index(i as int);
                }
                let removed_key = self.keys.remove(i);
                let v = self.values.remove(i);
                proof {
                    let ks = old_self.key_seq();
                    assert(self.key_seq() =~= ks.remove(i as int));
                    assert(self.key_seq().no_duplicates()) by {
                        assert forall|a: int, b: int|
                            0 <= a < self.key_seq().len() && 0 <= b < self.key_seq().len() && a
                                != b implies self.key_seq()[a] != self.key_seq()[b] by {
                            let a2 = if a < i { a } else { a + 1 };
                            let b2 = if b < i { b } else { b + 1 };
                            assert(self.key_seq()[a] == ks[a2]);
                            assert(self.key_seq()[b] == ks[b2]);
                        }
                    }
                    assert forall|key: Seq<char>|
                        #[trigger] self@.dom().contains(key) implies self@[key] == old_self@.remove(
                        k@,
                    )[key] && key != k@ by {
                        let j = self.key_seq().index_of(key);
                        assert(self.key_seq().contains(key));
                        self.lemma_index(j);
                        let j2 = if j < i { j } else { j + 1 };
                        assert(ks[j2] == key);
                        old_self.lemma_index(j2);
                    }
                    assert forall|key: Seq<char>|
                        #[trigger] old_self@.remove(k@).dom().contains(key) implies self@.dom().contains(
                        key,
                    ) by {
                        let j = ks.index_of(key);
                        assert(ks.contains(key));
                        assert(ks[j] == key);
                        assert(j != i);
                        let j2 = if j < i { j } else { j - 1 };
                        assert(self.key_seq()[j2] == key);
                    }
                    assert(self@ =~= old_self@.remove(k@));
                }
                Some(v)
            },
            None => {
                proof {
                    assert(self@ =~= old_self@.remove(k@));
                }
                None
            },
        }
    }

    /// Removes every entry.
    pub fn clear(&mut self)
        ensures
            final(self).wf(),
            final(self)@ == Map::<Seq<char>, V>::empty(),
    {
        self.keys.clear();
        self.values.clear();
        proof {
            assert(self@ =~= Map::<Seq<char>, V>::empty());
        }
    }

    /// The names of the entries, in the map's order.
    pub fn keys(&self) -> (ks: &Vec<String>)
        requires
            self.wf(),
        ensures
            names_of(ks@) == self.key_seq(),
    {
        &self.keys
    }

    /// The values of the entries, in the map's order.
    pub fn values(&self) -> (vs: &Vec<V>)
        requires
            self.wf(),
        ensures
            vs@ == self.value_seq(),
    {
        &self.values
    }

    /// A copy of the names, in the map's order.
    pub fn key_names(&self) -> (names: Vec<String>)
        requires
            self.wf(),
        ensures
            names_of(names@) == self.key_seq(),
    {
        let mut names: Vec<String> = Vec::new();
        let mut i: usize = 0;
        while i < self.keys.len()
            invariant
                self.wf(),
                i <= self.keys@.len(),
                names@ == self.keys@.subrange(0, i as int),
            decreases self.keys@.len() - i,
        {
            let name = self.keys[i].clone();
            names.push(name);
            proof {
                assert(names@ =~= self.keys@.subrange(0, i + 1));
            }
            i = i + 1;
        }
        proof {
            assert(names@ =~= self.keys@);
        }
        names
    }
}

impl NameMap<Vec<PeerAddr>> {
    /// A copy of a map from names to lists of peers.
    pub fn duplicate(&self) -> (copy: Self)
        requires
            self.wf(),
        ensures
            copy.wf(),
            copy@.dom() == self@.dom(),
            forall|k: Seq<char>| #[trigger] copy@.dom().contains(k) ==> copy@[k]@ == self@[k]@,
            copy@.map_values(|v: Vec<PeerAddr>| v@) == self@.map_values(|v: Vec<PeerAddr>| v@),
            copy.key_seq() == self.key_seq(),
    {
        let keys = self.key_names();
        let mut values: Vec<Vec<PeerAddr>> = Vec::new();
        let mut i: usize = 0;
        while i < self.values.len()
            invariant
                self.wf(),
                i <= self.values@.len(),
                values@.len() == i,
                forall|j: int| 0 <= j < i ==> (#[trigger] values@[j])@ == self.values@[j]@,
            decreases self.values@.len() - i,
        {
            values.push(copy_peers(&self.values[i]));
            i = i + 1;
        }
        let copy = NameMap { keys, values };
        proof {
            assert(names_of(copy.keys@).len() == copy.keys@.len());
            assert(copy.key_seq() == self.key_seq());
            self.lemma_view();
            copy.lemma_view();
            assert(copy@.dom() =~= self@.dom());
            assert forall|k: Seq<char>| #[trigger] copy@.dom().contains(k) implies copy@[k]@
                == self@[k]@ by {
                let j = copy.key_seq().index_of(k);
                assert(copy.key_seq().contains(k));
                copy.lemma_index(j);
                self.lemma_index(j);
            }
            assert(copy@.map_values(|v: Vec<PeerAddr>| v@) =~= self@.map_values(|v: Vec<PeerAddr>| v@));
        }
        copy
    }
}

impl NameMap<String> {
    /// A copy of a map from names to strings.
    pub fn duplicate(&self) -> (copy: Self)
        requires
            self.wf(),
        ensures
            copy.wf(),
            copy@ == self@,
            copy.key_seq() == self.key_seq(),
    {
        let keys = self.key_names();
        let mut values: Vec<String> = Vec::new();
        let mut i: usize = 0;
        while i < self.values.len()
            invariant
                self.wf(),
                i <= self.values@.len(),
                values@ == self.values@.subrange(0, i as int),
            decreases self.values@.len() - i,
        {
            values.push(self.values[i].clone());
            i = i + 1;
        }
        let copy = NameMap { keys, values };
        proof {
            assert(names_of(copy.keys@).len() == copy.keys@.len());
            assert(copy.key_seq() == self.key_seq());
            assert(values@ =~= self.values@);
            assert(copy@ =~= self@);
        }
        copy
    }
}

} // verus!
