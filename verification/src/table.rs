//! A small verified map from `String` labels to values, stored as an
//! association list with pairwise distinct keys.  Both graph containers keep
//! their node, edge and adjacency maps in this type.

use vstd::prelude::*;

verus! {

/// The views of the keys of an association list, in order.
pub open spec fn key_views<V>(entries: Seq<(String, V)>) -> Seq<Seq<char>> {
    entries.map_values(|e: (String, V)| e.0@)
}

/// Interpretation of an association list as a finite map from key views to
/// stored values.  Later entries take precedence, though a well-formed table
/// never holds a key twice.
pub open spec fn assoc_view<V>(entries: Seq<(String, V)>) -> Map<Seq<char>, V>
    decreases entries.len(),
{
    if entries.len() == 0 {
        Map::empty()
    } else {
        assoc_view(entries.drop_last()).insert(entries.last().0@, entries.last().1)
    }
}

/// The domain of an association list's map is exactly the set of its key
/// views, and it is finite.
proof fn lemma_assoc_dom<V>(entries: Seq<(String, V)>)
    ensures
        forall|k: Seq<char>| #[trigger]
            assoc_view(entries).dom().contains(k) <==> (exists|i: int|
                0 <= i < entries.len() && entries[i].0@ == k),
        assoc_view(entries).dom().finite(),
    decreases entries.len(),
{
    if entries.len() == 0 {
    } else {
        lemma_assoc_dom(entries.drop_last());
        assert forall|k: Seq<char>| #[trigger]
            assoc_view(entries).dom().contains(k) implies (exists|i: int|
            0 <= i < entries.len() && entries[i].0@ == k) by {
            if k == entries.last().0@ {
                assert(entries[entries.len() - 1].0@ == k);
            } else {
                let i = choose|i: int|
                    0 <= i < entries.drop_last().len() && entries.drop_last()[i].0@ == k;
                assert(entries[i].0@ == k);
            }
        }
        assert forall|k: Seq<char>|
            (exists|i: int|
                0 <= i < entries.len() && entries[i].0@ == k) implies #[trigger]
            assoc_view(entries).dom().contains(k) by {
            let i = choose|i: int| 0 <= i < entries.len() && entries[i].0@ == k;
            if i < entries.len() - 1 {
                assert(entries.drop_last()[i].0@ == k);
            }
        }
    }
}

/// With distinct keys, the entry at any index is what the map stores for its
/// key.
proof fn lemma_assoc_get<V>(entries: Seq<(String, V)>, i: int)
    requires
        key_views(entries).no_duplicates(),
        0 <= i < entries.len(),
    ensures
        assoc_view(entries).dom().contains(entries[i].0@),
        assoc_view(entries)[entries[i].0@] == entries[i].1,
    decreases entries.len(),
{
    if i == entries.len() - 1 {
    } else {
        assert(key_views(entries.drop_last()) =~= key_views(entries).drop_last());
        assert(key_views(entries.drop_last()).no_duplicates());
        lemma_assoc_get(entries.drop_last(), i);
        assert(entries.drop_last()[i] == entries[i]);
        assert(key_views(entries)[i] != key_views(entries)[entries.len() - 1]);
        assert(entries[i].0@ != entries.last().0@);
    }
}

/// With distinct keys, removing the entry at an index removes exactly its key
/// from the map.
proof fn lemma_assoc_remove<V>(entries: Seq<(String, V)>, i: int)
    requires
        key_views(entries).no_duplicates(),
        0 <= i < entries.len(),
    ensures
        assoc_view(entries.remove(i)) == assoc_view(entries).remove(entries[i].0@),
    decreases entries.len(),
{
    let k = entries[i].0@;
    if i == entries.len() - 1 {
        assert(entries.remove(i) =~= entries.drop_last());
        lemma_assoc_dom::<V>(entries.drop_last());
        assert forall|j: int|
            0 <= j < entries.drop_last().len() implies entries.drop_last()[j].0@ != k by {
            assert(key_views(entries)[j] != key_views(entries)[entries.len() - 1]);
        }
        assert(!assoc_view(entries.drop_last()).dom().contains(k));
        assert(assoc_view(entries.drop_last()).insert(k, entries[i].1).remove(k)
            =~= assoc_view(entries.drop_last()));
    } else {
        let shorter = entries.drop_last();
        assert(key_views(shorter) =~= key_views(entries).drop_last());
        assert(key_views(shorter).no_duplicates());
        lemma_assoc_remove(shorter, i);
        assert(shorter[i] == entries[i]);
        assert(entries.remove(i).drop_last() =~= shorter.remove(i));
        assert(entries.remove(i).last() == entries.last());
        assert(entries.remove(i).len() >= 1);
        let lk = entries.last().0@;
        let lv = entries.last().1;
        assert(assoc_view(entries.remove(i))
            == assoc_view(shorter.remove(i)).insert(lk, lv));
        assert(key_views(entries)[i] != key_views(entries)[entries.len() - 1]);
        assert(k != lk);
        assert(assoc_view(shorter).remove(k).insert(lk, lv)
            =~= assoc_view(shorter).insert(lk, lv).remove(k));
    }
}

/// A map from `String` labels to values, with insert-and-return-previous
/// semantics.  The representation keeps at most one entry per key.
pub struct Table<V> {
    entries: Vec<(String, V)>,
}

impl<V> View for Table<V> {
    type V = Map<Seq<char>, V>;

    closed spec fn view(&self) -> Map<Seq<char>, V> {
        assoc_view(self.entries@)
    }
}

impl<V> Table<V> {
    /// No two entries share a key.
    pub closed spec fn wf(&self) -> bool {
        key_views(self.entries@).no_duplicates()
    }

    /// The number of distinct keys equals the number of entries.
    pub proof fn lemma_dom_finite(&self)
        ensures
            self@.dom().finite(),
    {
        lemma_assoc_dom(self.entries@);
    }

    pub fn new() -> (t: Self)
        ensures
            t.wf(),
            t@ == Map::<Seq<char>, V>::empty(),
    {
        let t = Table { entries: Vec::new() };
        proof {
            assert(key_views(t.entries@) =~= Seq::<Seq<char>>::empty());
        }
        t
    }

    /// Index of the entry holding `k`, if any.
    fn find(&self, k: &String) -> (r: Option<usize>)
        ensures
            match r {
                Some(i) => i < self.entries@.len() && self.entries@[i as int].0@ == k@,
                None => forall|i: int| 0 <= i < self.entries@.len() ==> self.entries@[i].0@ != k@,
            },
    {
        let mut i: usize = 0;
        while i < self.entries.len()
            invariant
                i <= self.entries@.len(),
                forall|j: int| 0 <= j < i ==> self.entries@[j].0@ != k@,
            decreases self.entries@.len() - i,
        {
            if self.entries[i].0 == *k {
                return Some(i);
            }
            i = i + 1;
        }
        None
    }

    pub fn contains_key(&self, k: &String) -> (r: bool)
        ensures
            r == self@.dom().contains(k@),
    {
        proof {
            lemma_assoc_dom(self.entries@);
        }
        match self.find(k) {
            Some(_) => true,
            None => false,
        }
    }

    pub fn get(&self, k: &String) -> (r: Option<&V>)
        requires
            self.wf(),
        ensures
            match r {
                Some(v) => self@.dom().contains(k@) && *v == self@[k@],
                None => !self@.dom().contains(k@),
            },
    {
        proof {
            lemma_assoc_dom(self.entries@);
        }
        match self.find(k) {
            Some(i) => {
                proof {
                    lemma_assoc_get(self.entries@, i as int);
                }
                Some(&self.entries[i].1)
            },
            None => None,
        }
    }

    /// Inserts or replaces the value stored for `k`, handing back the value
    /// it replaced.
    pub fn insert(&mut self, k: String, v: V) -> (r: Option<V>)
        requires
            old(self).wf(),
        ensures
            final(self).wf(),
            final(self)@ == old(self)@.insert(k@, v),
            r == (if old(self)@.dom().contains(k@) {
                Some(old(self)@[k@])
            } else {
                None::<V>
            }),
    {
        proof {
            lemma_assoc_dom(self.entries@);
        }
        let found = self.find(&k);
        match found {
            Some(i) => {
                proof {
                    lemma_assoc_get(self.entries@, i as int);
                    lemma_assoc_remove(self.entries@, i as int);
                }
                let ghost before = self.entries@;
                let ghost mid = before.remove(i as int);
                let prev = self.entries.remove(i);
                self.entries.push((k, v));
                proof {
                    assert(self.entries@ == mid.push((k, v)));
                    assert(key_views(self.entries@) =~= key_views(mid).push(k@));
                    assert(key_views(mid) =~= key_views(before).remove(i as int));
                    let kvn = key_views(mid).push(k@);
                    assert forall|a: int, b: int|
                        0 <= a < b < kvn.len() implies kvn[a] != kvn[b] by {
                        let kv = key_views(before);
                        let a0 = if a < i { a } else { a + 1 };
                        if b == kvn.len() - 1 {
                            assert(kvn[a] == kv[a0]);
                            assert(kvn[b] == k@);
                            assert(kv[a0] != kv[i as int]);
                        } else {
                            let b0 = if b < i { b } else { b + 1 };
                            assert(kvn[a] == kv[a0]);
                            assert(kvn[b] == kv[b0]);
                            assert(kv[a0] != kv[b0]);
                        }
                    }
                    assert(key_views(self.entries@).no_duplicates());
                    assert(self.entries@.drop_last() =~= mid);
                    assert(assoc_view(self.entries@) == assoc_view(mid).insert(k@, v));
                    assert(assoc_view(before).remove(before[i as int].0@).insert(k@, v)
                        =~= assoc_view(before).insert(k@, v));
                }
                Some(prev.1)
            },
            None => {
                let ghost before = self.entries@;
                self.entries.push((k, v));
                proof {
                    assert(self.entries@ == before.push((k, v)));
                    assert(key_views(self.entries@) =~= key_views(before).push(k@));
                    let kvn = key_views(before).push(k@);
                    assert forall|a: int, b: int|
                        0 <= a < b < kvn.len() implies kvn[a] != kvn[b] by {
                        if b == kvn.len() - 1 {
                            assert(before[a].0@ != k@);
                            assert(kvn[a] == key_views(before)[a]);
                            assert(key_views(before)[a] == before[a].0@);
                        } else {
                            assert(kvn[a] == key_views(before)[a]);
                            assert(kvn[b] == key_views(before)[b]);
                        }
                    }
                    assert(key_views(self.entries@).no_duplicates());
                    assert(self.entries@.drop_last() =~= before);
                    assert(assoc_view(self.entries@) == assoc_view(before).insert(k@, v));
                }
                None
            },
        }
    }

    /// Removes the entry stored for `k`, handing back its value.
    pub fn remove(&mut self, k: &String) -> (r: Option<V>)
        requires
            old(self).wf(),
        ensures
            final(self).wf(),
            final(self)@ == old(self)@.remove(k@),
            r == (if old(self)@.dom().contains(k@) {
                Some(old(self)@[k@])
            } else {
                None::<V>
            }),
    {
        proof {
            lemma_assoc_dom(self.entries@);
        }
        let found = self.find(k);
        match found {
            Some(i) => {
                proof {
                    lemma_assoc_get(self.entries@, i as int);
                    lemma_assoc_remove(self.entries@, i as int);
                    let kv = key_views(self.entries@);
                    assert(key_views(self.entries@.remove(i as int)) =~= kv.remove(i as int));
                    assert forall|a: int, b: int|
                        0 <= a < b < kv.remove(i as int).len() implies
                        kv.remove(i as int)[a] != kv.remove(i as int)[b] by {
                        let a0 = if a < i { a } else { a + 1 };
                        let b0 = if b < i { b } else { b + 1 };
                        assert(kv[a0] != kv[b0]);
                    }
                }
                let prev = self.entries.remove(i);
                Some(prev.1)
            },
            None => {
                proof {
                    assert(self@.remove(k@) =~= self@);
                }
                None
            },
        }
    }
}

} // verus!
