//! A map keyed by chunk coordinate, with unique keys and no order.
use vstd::prelude::*;
use crate::coord::ChunkCoord;

verus! {

/// Keys and values side by side; each key stands once.
pub struct CoordMap<V> {
    keys: Vec<ChunkCoord>,
    vals: Vec<V>,
}

impl<V> View for CoordMap<V> {
    type V = Map<ChunkCoord, V>;

    closed spec fn view(&self) -> Map<ChunkCoord, V> {
        Map::new(
            |c: ChunkCoord| self.keys@.contains(c),
            |c: ChunkCoord| self.vals@[self.keys@.index_of(c)],
        )
    }
}

impl<V> CoordMap<V> {
    pub closed spec fn wf(&self) -> bool {
        &&& self.keys@.len() == self.vals@.len()
        &&& self.keys@.no_duplicates()
    }

    proof fn lemma_index(&self, i: int)
        requires
            self.wf(),
            0 <= i < self.keys@.len(),
        ensures
            self.keys@.index_of(self.keys@[i]) == i,
            self@.contains_key(self.keys@[i]),
            self@[self.keys@[i]] == self.vals@[i],
    {
        assert(self.keys@.contains(self.keys@[i]));
        let j = self.keys@.index_of(self.keys@[i]);
        assert(self.keys@[j] == self.keys@[i]);
    }

    pub fn new() -> (r: CoordMap<V>)
        ensures
            r.wf(),
            r@ == Map::<ChunkCoord, V>::empty(),
    {
        let r = CoordMap { keys: Vec::new(), vals: Vec::new() };
        assert(r@ =~= Map::<ChunkCoord, V>::empty());
        r
    }

    /// Number of entries.
    pub fn len(&self) -> (r: usize)
        requires
            self.wf(),
        ensures
            r == self@.len(),
    {
        proof {
            self.keys@.unique_seq_to_set();
            assert(self@.dom() =~= self.keys@.to_set());
        }
        self.keys.len()
    }

    fn find(&self, c: &ChunkCoord) -> (r: Option<usize>)
        requires
            self.wf(),
        ensures
            match r {
                Some(i) => i < self.keys@.len() && self.keys@[i as int] == *c,
                None => !self.keys@.contains(*c),
            },
    {
        let mut i: usize = 0;
        while i < self.keys.len()
            invariant
                i <= self.keys@.len(),
                forall|j: int| 0 <= j < i ==> self.keys@[j] != *c,
            decreases self.keys@.len() - i,
        {
            if self.keys[i] == *c {
                return Some(i);
            }
            i += 1;
        }
        None
    }

    pub fn contains_key(&self, c: &ChunkCoord) -> (r: bool)
        requires
            self.wf(),
        ensures
            r == self@.contains_key(*c),
    {
        self.find(c).is_some()
    }

    pub fn get(&self, c: &ChunkCoord) -> (r: Option<&V>)
        requires
            self.wf(),
        ensures
            match r {
                Some(v) => self@.contains_key(*c) && *v == self@[*c],
                None => !self@.contains_key(*c),
            },
    {
        match self.find(c) {
            Some(i) => {
                proof {
                    self.lemma_index(i as int);
                }
                Some(&self.vals[i])
            },
            None => None,
        }
    }

    /// Sets the value of `c`, returning the value it replaces.
    pub fn insert(&mut self, c: ChunkCoord, v: V) -> (r: Option<V>)
        requires
            old(self).wf(),
        ensures
            final(self).wf(),
            final(self)@ == old(self)@.insert(c, v),
            r == if old(self)@.contains_key(c) {
                Some(old(self)@[c])
            } else {
                None::<V>
            },
    {
        match self.find(&c) {
            Some(i) => {
                proof {
                    self.lemma_index(i as int);
                }
                self.vals.push(v);
                let prev = self.vals.swap_remove(i);
                assert(self.vals@ =~= old(self).vals@.update(i as int, v));
                proof {
                    assert forall|k: ChunkCoord| #[trigger]
                        self@.contains_key(k) == old(self)@.insert(c, v).contains_key(k) by {}
                    assert forall|k: ChunkCoord| self@.contains_key(k) implies #[trigger] self@[k]
                        == old(self)@.insert(c, v)[k] by {
                        let j = self.keys@.index_of(k);
                        self.lemma_index(j);
                        if k != c {
                            old(self).lemma_index(j);
                        }
                    }
                    assert(self@ =~= old(self)@.insert(c, v));
                }
                Some(prev)
            },
            None => {
                self.keys.push(c);
                self.vals.push(v);
                proof {
                    assert(self.keys@.no_duplicates()) by {
                        assert forall|a: int, b: int|
                            0 <= a < self.keys@.len() && 0 <= b < self.keys@.len() && a != b implies self.keys@[a]
                            != self.keys@[b] by {
                            if a < old(self).keys@.len() && b < old(self).keys@.len() {
                                assert(old(self).keys@[a] != old(self).keys@[b]);
                            } else if a < old(self).keys@.len() {
                                assert(old(self).keys@.contains(old(self).keys@[a]));
                            } else if b < old(self).keys@.len() {
                                assert(old(self).keys@.contains(old(self).keys@[b]));
                            }
                        }
                    }
                    assert forall|k: ChunkCoord| #[trigger]
                        self@.contains_key(k) == old(self)@.insert(c, v).contains_key(k) by {
                        if old(self).keys@.contains(k) {
                            let j = choose|j: int| 0 <= j < old(self).keys@.len() && old(self).keys@[j] == k;
                            assert(self.keys@[j] == k);
                        }
                        if k == c {
                            assert(self.keys@[old(self).keys@.len() as int] == c);
                        }
                    }
                    assert forall|k: ChunkCoord| self@.contains_key(k) implies #[trigger] self@[k]
                        == old(self)@.insert(c, v)[k] by {
                        let j = self.keys@.index_of(k);
                        self.lemma_index(j);
                        if k != c {
                            old(self).lemma_index(j);
                        }
                    }
                    assert(self@ =~= old(self)@.insert(c, v));
                }
                None
            },
        }
    }

    /// Takes the entry of `c` out of the map.
    pub fn remove(&mut self, c: &ChunkCoord) -> (r: Option<V>)
        requires
            old(self).wf(),
        ensures
            final(self).wf(),
            final(self)@ == old(self)@.remove(*c),
            r == if old(self)@.contains_key(*c) {
                Some(old(self)@[*c])
            } else {
                None::<V>
            },
    {
        match self.find(c) {
            Some(i) => {
                proof {
                    self.lemma_index(i as int);
                }
                let ghost ok = old(self).keys@;
                let ghost last = (ok.len() - 1) as int;
                self.keys.swap_remove(i);
                let v = self.vals.swap_remove(i);
                proof {
                    assert forall|a: int|
                        0 <= a < self.keys@.len() implies #[trigger] self.keys@[a] == (if a == i {
                            ok[last]
                        } else {
                            ok[a]
                        }) by {}
                    assert(self.keys@.no_duplicates()) by {
                        assert forall|a: int, b: int|
                            0 <= a < self.keys@.len() && 0 <= b < self.keys@.len() && a != b implies self.keys@[a]
                            != self.keys@[b] by {
                            let oa = if a == i { last } else { a };
                            let ob = if b == i { last } else { b };
                            assert(ok[oa] != ok[ob]);
                        }
                    }
                    assert forall|k: ChunkCoord| #[trigger]
                        self@.contains_key(k) == old(self)@.remove(*c).contains_key(k) by {
                        if self.keys@.contains(k) {
                            let a = choose|a: int| 0 <= a < self.keys@.len() && self.keys@[a] == k;
                            let oa = if a == i { last } else { a };
                            assert(ok[oa] == k);
                            assert(oa != i);
                        }
                        if old(self).keys@.contains(k) && k != *c {
                            let a = choose|a: int| 0 <= a < ok.len() && ok[a] == k;
                            if a == last {
                                assert(self.keys@[i as int] == k);
                            } else {
                                assert(self.keys@[a] == k);
                            }
                        }
                    }
                    assert forall|k: ChunkCoord| self@.contains_key(k) implies #[trigger] self@[k]
                        == old(self)@.remove(*c)[k] by {
                        let a = self.keys@.index_of(k);
                        self.lemma_index(a);
                        let oa = if a == i { last } else { a };
                        old(self).lemma_index(oa);
                    }
                    assert(self@ =~= old(self)@.remove(*c));
                }
                Some(v)
            },
            None => {
                assert(old(self)@.remove(*c) =~= old(self)@);
                None
            },
        }
    }

    /// Every key, once each.
    pub fn keys(&self) -> (r: Vec<ChunkCoord>)
        requires
            self.wf(),
        ensures
            r@.no_duplicates(),
            forall|i: int| 0 <= i < r@.len() ==> self@.contains_key(#[trigger] r@[i]),
            forall|c: ChunkCoord| self@.contains_key(c) ==> r@.contains(c),
    {
        let mut out: Vec<ChunkCoord> = Vec::new();
        let mut i: usize = 0;
        while i < self.keys.len()
            invariant
                self.wf(),
                i <= self.keys@.len(),
                out@ == self.keys@.subrange(0, i as int),
            decreases self.keys@.len() - i,
        {
            out.push(self.keys[i]);
            assert(out@ =~= self.keys@.subrange(0, i + 1));
            i += 1;
        }
        assert(out@ =~= self.keys@);
        out
    }
}

} // verus!
