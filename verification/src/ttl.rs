//! The table of keys that expire: each key once, ordered by expiry time.
use vstd::prelude::*;
use crate::assoc::{keys_unique, assoc_map, assoc_has, lemma_assoc_index, lemma_assoc_insert,
    lemma_assoc_remove, lemma_assoc_has};
use crate::databasehelper::KeyTtl;

verus! {

/// The key and expiry time of each entry of a table.
pub open spec fn ttl_pairs(v: Seq<KeyTtl>) -> Seq<(Seq<char>, u64)> {
    v.map_values(|e: KeyTtl| (e.key@, e.expire_time))
}

/// The expiry times never decrease along the table.
pub open spec fn ttl_sorted(v: Seq<KeyTtl>) -> bool {
    forall|i: int, j: int| 0 <= i <= j < v.len() ==> (#[trigger] v[i]).expire_time <= (
    #[trigger] v[j]).expire_time
}

/// The keys that expire, ordered by expiry time.
pub struct TtlTable {
    entries: Vec<KeyTtl>,
}

impl View for TtlTable {
    type V = Map<Seq<char>, u64>;

    closed spec fn view(&self) -> Map<Seq<char>, u64> {
        assoc_map(ttl_pairs(self.entries@))
    }
}

impl TtlTable {
    /// Each key once, in order of expiry time.
    pub closed spec fn wf(&self) -> bool {
        keys_unique(ttl_pairs(self.entries@)) && ttl_sorted(self.entries@)
    }

    /// The number of entries.
    pub closed spec fn size(&self) -> nat {
        self.entries@.len()
    }

    /// The entries, in order.
    pub closed spec fn entries_view(&self) -> Seq<(Seq<char>, u64)> {
        ttl_pairs(self.entries@)
    }

    /// The entries have distinct keys, and the table maps each key to the
    /// time of its entry.
    pub proof fn lemma_entries(&self)
        requires
            self.wf(),
        ensures
            keys_unique(self.entries_view()),
            self@ == assoc_map(self.entries_view()),
    {
    }

    /// An empty table.
    pub fn new() -> (r: TtlTable)
        ensures
            r.wf(),
            r@ == Map::<Seq<char>, u64>::empty(),
    {
        let r = TtlTable { entries: Vec::new() };
        assert(ttl_pairs(r.entries@) =~= Seq::empty());
        assert(r@ =~= Map::<Seq<char>, u64>::empty());
        r
    }

    fn position(&self, key: &String) -> (r: Option<usize>)
        ensures
            match r {
                Some(i) => i < self.entries@.len() && self.entries@[i as int].key@ == key@,
                None => !assoc_has(ttl_pairs(self.entries@), key@),
            },
    {
        let mut i: usize = 0;
        while i < self.entries.len()
            invariant
                i <= self.entries@.len(),
                forall|j: int| 0 <= j < i ==> (#[trigger] self.entries@[j]).key@ != key@,
            decreases self.entries.len() - i,
        {
            if self.entries[i].key == *key {
                return Some(i);
            }
            i = i + 1;
        }
        proof {
            let p = ttl_pairs(self.entries@);
            if assoc_has(p, key@) {
                let q = choose|q: int| 0 <= q < p.len() && (#[trigger] p[q]).0 == key@;
                assert(p[q].0 == self.entries@[q].key@);
            }
        }
        None
    }

    /// The expiry time of `key`.
    pub fn get(&self, key: &str) -> (r: Option<u64>)
        requires
            self.wf(),
        ensures
            match r {
                Some(t) => self@.contains_key(key@) && self@[key@] == t,
                None => !self@.contains_key(key@),
            },
    {
        let k = String::from_str(key);
        match self.position(&k) {
            Some(i) => {
                proof {
                    lemma_assoc_index(ttl_pairs(self.entries@), i as int);
                }
                Some(self.entries[i].expire_time)
            },
            None => None,
        }
    }

    /// Takes the entry of `key` out, if there is one.
    pub fn clear(&mut self, key: &str) -> (r: bool)
        requires
            old(self).wf(),
        ensures
            final(self).wf(),
            final(self)@ == old(self)@.remove(key@),
            r == old(self)@.contains_key(key@),
    {
        let k = String::from_str(key);
        match self.position(&k) {
            Some(i) => {
                let ghost ov = self.entries@;
                proof {
                    lemma_assoc_index(ttl_pairs(ov), i as int);
                    lemma_assoc_remove(ttl_pairs(ov), i as int);
                }
                self.entries.remove(i);
                proof {
                    assert(ttl_pairs(self.entries@) =~= ttl_pairs(ov).remove(i as int));
                    assert forall|a: int, b: int| 0 <= a <= b < self.entries@.len() implies (
                    #[trigger] self.entries@[a]).expire_time <= (
                    #[trigger] self.entries@[b]).expire_time by {
                        let oa = if a < i { a } else { a + 1 };
                        let ob = if b < i { b } else { b + 1 };
                        assert(self.entries@[a] == ov[oa]);
                        assert(self.entries@[b] == ov[ob]);
                    }
                }
                true
            },
            None => {
                proof {
                    assert(old(self)@.remove(key@) =~= old(self)@);
                }
                false
            },
        }
    }

    /// Sets the expiry time of `entry.key` to `entry.expire_time`, keeping
    /// the table ordered by expiry time.
    pub fn expire(&mut self, entry: KeyTtl)
        requires
            old(self).wf(),
        ensures
            final(self).wf(),
            final(self)@ == old(self)@.insert(entry.key@, entry.expire_time),
    {
        self.clear(entry.key.as_str());
        let ghost ov = self.entries@;
        let t = entry.expire_time;
        let mut p: usize = 0;
        while p < self.entries.len() && self.entries[p].expire_time <= t
            invariant
                p <= self.entries@.len(),
                self.entries@ == ov,
                forall|j: int| 0 <= j < p ==> (#[trigger] ov[j]).expire_time <= t,
            decreases self.entries.len() - p,
        {
            p = p + 1;
        }
        let ghost kv = (entry.key@, entry.expire_time);
        self.entries.insert(p, entry);
        proof {
            assert(ttl_pairs(self.entries@) =~= ttl_pairs(ov).insert(p as int, kv));
            lemma_assoc_has(ttl_pairs(ov), kv.0);
            lemma_assoc_insert(ttl_pairs(ov), p as int, kv);
            assert forall|a: int, b: int| 0 <= a <= b < self.entries@.len() implies (
            #[trigger] self.entries@[a]).expire_time <= (#[trigger] self.entries@[b]).expire_time by {
                if a < p && b < p {
                    assert(self.entries@[a] == ov[a]);
                    assert(self.entries@[b] == ov[b]);
                } else if a < p && b == p {
                    assert(self.entries@[a] == ov[a]);
                } else if a < p {
                    assert(self.entries@[a] == ov[a]);
                    assert(self.entries@[b] == ov[b - 1]);
                } else if a == p && b > p {
                    assert(self.entries@[b] == ov[b - 1]);
                    assert(ov[p as int].expire_time > t);
                } else if a > p {
                    assert(self.entries@[a] == ov[a - 1]);
                    assert(self.entries@[b] == ov[b - 1]);
                }
            }
        }
    }

    /// Gives the expiry time of `from` to `to`: `to` expires when `from` did,
    /// or never if `from` had no expiry time; `from` no longer expires.
    pub fn transfer(&mut self, from: &str, to: &str)
        requires
            old(self).wf(),
        ensures
            final(self).wf(),
            final(self)@ == (if old(self)@.contains_key(from@) {
                old(self)@.remove(from@).remove(to@).insert(to@, old(self)@[from@])
            } else {
                old(self)@.remove(to@)
            }),
    {
        match self.get(from) {
            Some(t) => {
                self.clear(from);
                self.expire(KeyTtl::new(to, t));
                proof {
                    assert(self@ =~= old(self)@.remove(from@).remove(to@).insert(
                        to@,
                        old(self)@[from@],
                    ));
                }
            },
            None => {
                self.clear(to);
            },
        }
    }

    /// Takes out the first entry if its expiry time has come at `now`.  As
    /// the table is ordered, `None` means that no entry's time has come.
    pub fn pop_due(&mut self, now: u64) -> (r: Option<KeyTtl>)
        requires
            old(self).wf(),
        ensures
            final(self).wf(),
            match r {
                Some(e) => old(self)@.contains_key(e.key@) && old(self)@[e.key@] == e.expire_time
                    && e.expire_time <= now && final(self)@ == old(self)@.remove(e.key@)
                    && final(self).size() + 1 == old(self).size(),
                None => final(self)@ == old(self)@ && forall|k: Seq<char>|
                    #[trigger] old(self)@.contains_key(k) ==> !(old(self)@[k] <= now),
            },
    {
        if self.entries.len() > 0 && self.entries[0].expire_time <= now {
            let ghost ov = self.entries@;
            proof {
                lemma_assoc_index(ttl_pairs(ov), 0);
                lemma_assoc_remove(ttl_pairs(ov), 0);
            }
            let e = self.entries.remove(0);
            proof {
                assert(ttl_pairs(self.entries@) =~= ttl_pairs(ov).remove(0));
                assert forall|a: int, b: int| 0 <= a <= b < self.entries@.len() implies (
                #[trigger] self.entries@[a]).expire_time <= (
                #[trigger] self.entries@[b]).expire_time by {
                    assert(self.entries@[a] == ov[a + 1]);
                    assert(self.entries@[b] == ov[b + 1]);
                }
            }
            Some(e)
        } else {
            proof {
                assert forall|k: Seq<char>| #[trigger] old(self)@.contains_key(k) implies !(old(
                    self,
                )@[k] <= now) by {
                    let p = ttl_pairs(self.entries@);
                    let q = choose|q: int| 0 <= q < p.len() && (#[trigger] p[q]).0 == k;
                    lemma_assoc_index(p, q);
                    assert(self.entries@[0].expire_time <= self.entries@[q].expire_time);
                }
            }
            None
        }
    }

    /// No key expires.
    pub fn is_empty(&self) -> (r: bool)
        requires
            self.wf(),
        ensures
            r == self@.is_empty(),
    {
        proof {
            crate::assoc::lemma_assoc_len(ttl_pairs(self.entries@));
            if self.entries@.len() > 0 {
                lemma_assoc_index(ttl_pairs(self.entries@), 0);
            }
        }
        self.entries.len() == 0
    }

    /// A copy of the entries, in order of expiry time.
    pub fn list(&self) -> (r: Vec<KeyTtl>)
        ensures
            ttl_pairs(r@) == self.entries_view(),
    {
        let mut r: Vec<KeyTtl> = Vec::new();
        let mut i: usize = 0;
        while i < self.entries.len()
            invariant
                i <= self.entries@.len(),
                ttl_pairs(r@) == ttl_pairs(self.entries@).take(i as int),
            decreases self.entries.len() - i,
        {
            let e = &self.entries[i];
            let ghost r0 = r@;
            r.push(KeyTtl { key: e.key.clone(), expire_time: e.expire_time });
            proof {
                assert(ttl_pairs(r@) =~= ttl_pairs(r0).push((e.key@, e.expire_time)));
                assert(ttl_pairs(self.entries@).take(i + 1) =~= ttl_pairs(self.entries@).take(
                    i as int,
                ).push((e.key@, e.expire_time)));
            }
            i = i + 1;
            assert(ttl_pairs(r@) =~= ttl_pairs(self.entries@).take(i as int));
        }
        assert(ttl_pairs(self.entries@).take(i as int) =~= ttl_pairs(self.entries@));
        r
    }
}

} // verus!
