//! The dictionary of the database: ten buckets of slots, each key in the
//! bucket that its length in bytes selects.
//!
//! Keys are strings, and vstd specifies `std`'s hash maps and sets only for
//! keys it knows to hash consistently (integers and `bool`); so the table is
//! held in vectors, with the uniqueness of keys as its invariant.
use vstd::prelude::*;
use crate::databasehelper::{StorageValue, ValueView, strings_view};

verus! {

/// How many buckets a `HashShard` divides its keys into.
pub const HASH_NUMBER: usize = 10;

/// The bucket that a key belongs to: its length in bytes modulo `HASH_NUMBER`.
pub open spec fn shard_of(k: Seq<char>) -> int {
    ((vstd::utf8::encode_utf8(k).len() as usize) % 10) as int
}

/// One key of the dictionary, its value and the time, in seconds since
/// the Unix epoch, at which it was last accessed.
pub struct Slot {
    pub key: String,
    pub value: StorageValue,
    pub last_access: u64,
}

/// What the dictionary keeps for a key: its value and its last access time.
pub type EntryView = (ValueView, u64);

impl Slot {
    pub open spec fn entry(&self) -> EntryView {
        (self.value@, self.last_access)
    }
}

/// A bucket holds `k`.
pub open spec fn bucket_has(b: Seq<Slot>, k: Seq<char>) -> bool {
    exists|i: int| 0 <= i < b.len() && (#[trigger] b[i]).key@ == k
}

/// The position of `k` in a bucket that holds it.
pub open spec fn bucket_pos(b: Seq<Slot>, k: Seq<char>) -> int {
    choose|i: int| 0 <= i < b.len() && (#[trigger] b[i]).key@ == k
}

/// The entry of `k` in a bucket that holds it.
pub open spec fn bucket_entry(b: Seq<Slot>, k: Seq<char>) -> EntryView {
    b[bucket_pos(b, k)].entry()
}

/// What a bucket maps its keys to.
pub open spec fn bucket_map(b: Seq<Slot>) -> Map<Seq<char>, EntryView> {
    Map::new(|k: Seq<char>| bucket_has(b, k), |k: Seq<char>| bucket_entry(b, k))
}

/// What the buckets together map each key to: the entry in the bucket of
/// `shard_of`.
pub open spec fn shard_view(data: Seq<Vec<Slot>>) -> Map<Seq<char>, EntryView> {
    Map::new(
        |k: Seq<char>| bucket_map(data[shard_of(k)]@).contains_key(k),
        |k: Seq<char>| bucket_map(data[shard_of(k)]@)[k],
    )
}

/// No key occurs twice in a bucket.
pub open spec fn bucket_unique(b: Seq<Slot>) -> bool {
    forall|i: int, j: int|
        0 <= i < b.len() && 0 <= j < b.len() && i != j ==> (#[trigger] b[i]).key@ != (
        #[trigger] b[j]).key@
}

/// The keys of the buckets `0..n`, bucket by bucket, each in slot order.
pub open spec fn keys_upto(data: Seq<Vec<Slot>>, n: int) -> Seq<Seq<char>>
    decreases n,
{
    if n <= 0 {
        Seq::empty()
    } else {
        keys_upto(data, n - 1) + data[n - 1]@.map_values(|s: Slot| s.key@)
    }
}

/// Buckets that a `HashShard` can hold: `HASH_NUMBER` of them, each key in the
/// bucket of `shard_of`, no key twice in a bucket, every set without repeats.
pub open spec fn buckets_wf(data: Seq<Vec<Slot>>) -> bool {
    &&& data.len() == 10
    &&& forall|b: int, i: int|
        0 <= b < 10 && 0 <= i < data[b]@.len() ==> shard_of((#[trigger] data[b]@[i]).key@) == b
            && data[b]@[i].value@.wf()
    &&& forall|b: int| 0 <= b < 10 ==> bucket_unique(#[trigger] data[b]@)
}

proof fn lemma_bucket_pos(b: Seq<Slot>, i: int)
    requires
        bucket_unique(b),
        0 <= i < b.len(),
    ensures
        bucket_has(b, b[i].key@),
        bucket_pos(b, b[i].key@) == i,
        bucket_entry(b, b[i].key@) == b[i].entry(),
{
    let k = b[i].key@;
    assert(bucket_has(b, k));
    let p = bucket_pos(b, k);
    assert(b[p].key@ == k);
}

/// Writing slot `i` with a slot of the same key changes the entry of that key.
proof fn lemma_bucket_update(b: Seq<Slot>, i: int, s: Slot)
    requires
        bucket_unique(b),
        0 <= i < b.len(),
        b[i].key@ == s.key@,
    ensures
        bucket_unique(b.update(i, s)),
        bucket_map(b.update(i, s)) == bucket_map(b).insert(s.key@, s.entry()),
{
    let nb = b.update(i, s);
    assert forall|x: int, y: int|
        0 <= x < nb.len() && 0 <= y < nb.len() && x != y implies (#[trigger] nb[x]).key@ != (
        #[trigger] nb[y]).key@ by {
        assert(nb[x].key@ == b[x].key@);
        assert(nb[y].key@ == b[y].key@);
    }
    assert forall|k: Seq<char>| bucket_has(nb, k) <==> bucket_has(b, k) || k == s.key@ by {
        if bucket_has(b, k) {
            let p = bucket_pos(b, k);
            assert(nb[p].key@ == k);
        }
        if bucket_has(nb, k) {
            let p = bucket_pos(nb, k);
            assert(b[p].key@ == k);
        }
    }
    assert forall|k: Seq<char>| bucket_has(nb, k) implies bucket_entry(nb, k) == (if k == s.key@ {
        s.entry()
    } else {
        bucket_entry(b, k)
    }) by {
        let p = bucket_pos(nb, k);
        lemma_bucket_pos(nb, p);
        if k != s.key@ {
            lemma_bucket_pos(b, p);
        } else {
            lemma_bucket_pos(nb, i);
        }
    }
    assert(bucket_map(nb) =~= bucket_map(b).insert(s.key@, s.entry()));
}

/// Appending a slot of a new key adds that key.
proof fn lemma_bucket_push(b: Seq<Slot>, s: Slot)
    requires
        bucket_unique(b),
        !bucket_has(b, s.key@),
    ensures
        bucket_unique(b.push(s)),
        bucket_map(b.push(s)) == bucket_map(b).insert(s.key@, s.entry()),
{
    let nb = b.push(s);
    assert forall|x: int, y: int|
        0 <= x < nb.len() && 0 <= y < nb.len() && x != y implies (#[trigger] nb[x]).key@ != (
        #[trigger] nb[y]).key@ by {
        if x < b.len() && y < b.len() {
            assert(nb[x] == b[x]);
            assert(nb[y] == b[y]);
        } else if x < b.len() {
            assert(nb[x] == b[x]);
        } else if y < b.len() {
            assert(nb[y] == b[y]);
        }
    }
    assert forall|k: Seq<char>| bucket_has(nb, k) <==> bucket_has(b, k) || k == s.key@ by {
        if bucket_has(b, k) {
            let p = bucket_pos(b, k);
            assert(nb[p] == b[p]);
        }
        if k == s.key@ {
            assert(nb[b.len() as int] == s);
        }
        if bucket_has(nb, k) {
            let p = bucket_pos(nb, k);
            if p < b.len() {
                assert(nb[p] == b[p]);
            }
        }
    }
    assert forall|k: Seq<char>| bucket_has(nb, k) implies bucket_entry(nb, k) == (if k == s.key@ {
        s.entry()
    } else {
        bucket_entry(b, k)
    }) by {
        let p = bucket_pos(nb, k);
        lemma_bucket_pos(nb, p);
        if p < b.len() {
            assert(nb[p] == b[p]);
            lemma_bucket_pos(b, p);
        }
    }
    assert(bucket_map(nb) =~= bucket_map(b).insert(s.key@, s.entry()));
}

/// Taking slot `i` out removes its key.
proof fn lemma_bucket_remove(b: Seq<Slot>, i: int)
    requires
        bucket_unique(b),
        0 <= i < b.len(),
    ensures
        bucket_unique(b.remove(i)),
        bucket_map(b.remove(i)) == bucket_map(b).remove(b[i].key@),
        forall|j: int| 0 <= j < b.remove(i).len() ==> exists|x: int| 0 <= x < b.len() && (
        #[trigger] b.remove(i)[j]) == b[x],
{
    let nb = b.remove(i);
    let key = b[i].key@;
    assert forall|j: int| 0 <= j < nb.len() implies exists|x: int| 0 <= x < b.len() && (
    #[trigger] nb[j]) == b[x] by {
        if j < i {
            assert(nb[j] == b[j]);
        } else {
            assert(nb[j] == b[j + 1]);
        }
    }
    assert forall|x: int, y: int|
        0 <= x < nb.len() && 0 <= y < nb.len() && x != y implies (#[trigger] nb[x]).key@ != (
        #[trigger] nb[y]).key@ by {
        let ox = if x < i {
            x
        } else {
            x + 1
        };
        let oy = if y < i {
            y
        } else {
            y + 1
        };
        assert(nb[x] == b[ox]);
        assert(nb[y] == b[oy]);
    }
    assert forall|k: Seq<char>| bucket_has(nb, k) <==> bucket_has(b, k) && k != key by {
        if bucket_has(b, k) && k != key {
            let p = bucket_pos(b, k);
            if p < i {
                assert(nb[p] == b[p]);
            } else {
                assert(p != i);
                assert(nb[p - 1] == b[p]);
            }
        }
        if bucket_has(nb, k) {
            let p = bucket_pos(nb, k);
            let op = if p < i {
                p
            } else {
                p + 1
            };
            assert(nb[p] == b[op]);
        }
    }
    assert forall|k: Seq<char>| bucket_has(nb, k) implies bucket_entry(nb, k) == bucket_entry(
        b,
        k,
    ) by {
        let p = bucket_pos(nb, k);
        lemma_bucket_pos(nb, p);
        let op = if p < i {
            p
        } else {
            p + 1
        };
        assert(nb[p] == b[op]);
        lemma_bucket_pos(b, op);
    }
    assert(bucket_map(nb) =~= bucket_map(b).remove(key));
}

/// Replacing the bucket of `key` by one that maps as the old one with
/// `key` inserted, inserts `key` in the whole dictionary.
proof fn lemma_shard_insert(
    data: Seq<Vec<Slot>>,
    sb: int,
    nb: Vec<Slot>,
    key: Seq<char>,
    e: EntryView,
)
    requires
        buckets_wf(data),
        shard_of(key) == sb,
        bucket_map(nb@) == bucket_map(data[sb]@).insert(key, e),
    ensures
        shard_view(data.update(sb, nb)) == shard_view(data).insert(key, e),
{
    let nd = data.update(sb, nb);
    assert(shard_view(nd) =~= shard_view(data).insert(key, e));
}

/// Replacing the bucket of `key` by one that maps as the old one without
/// `key`, removes `key` from the whole dictionary.
proof fn lemma_shard_remove(data: Seq<Vec<Slot>>, sb: int, nb: Vec<Slot>, key: Seq<char>)
    requires
        buckets_wf(data),
        shard_of(key) == sb,
        bucket_map(nb@) == bucket_map(data[sb]@).remove(key),
    ensures
        shard_view(data.update(sb, nb)) == shard_view(data).remove(key),
{
    let nd = data.update(sb, nb);
    assert(shard_view(nd) =~= shard_view(data).remove(key));
}

/// Replacing a bucket by a well-formed bucket of the same shard keeps the
/// buckets well formed.
proof fn lemma_wf_replace(data: Seq<Vec<Slot>>, b: int, nb: Vec<Slot>)
    requires
        buckets_wf(data),
        0 <= b < 10,
        bucket_unique(nb@),
        forall|x: int|
            0 <= x < nb@.len() ==> shard_of((#[trigger] nb@[x]).key@) == b && nb@[x].value@.wf(),
    ensures
        buckets_wf(data.update(b, nb)),
{
    let nd = data.update(b, nb);
    assert forall|j: int, x: int| 0 <= j < 10 && 0 <= x < nd[j]@.len() implies shard_of(
        (#[trigger] nd[j]@[x]).key@,
    ) == j && nd[j]@[x].value@.wf() by {
        if j == b {
            assert(nd[j] == nb);
        }
    }
    assert forall|j: int| 0 <= j < 10 implies bucket_unique(#[trigger] nd[j]@) by {
        if j == b {
            assert(nd[j] == nb);
        }
    }
}

proof fn lemma_keys_upto(data: Seq<Vec<Slot>>, n: int)
    requires
        buckets_wf(data),
        0 <= n <= 10,
    ensures
        keys_upto(data, n).no_duplicates(),
        forall|k: Seq<char>|
            #![trigger keys_upto(data, n).contains(k)]
            keys_upto(data, n).contains(k) <==> (shard_of(k) < n && bucket_has(
                data[shard_of(k)]@,
                k,
            )),
    decreases n,
{
    if n > 0 {
        lemma_keys_upto(data, n - 1);
        let pre = keys_upto(data, n - 1);
        let b = data[n - 1]@;
        let ks = b.map_values(|s: Slot| s.key@);
        let all = keys_upto(data, n);
        assert(all == pre + ks);
        assert forall|k: Seq<char>| #![trigger all.contains(k)] all.contains(k) <==> (shard_of(k)
            < n && bucket_has(data[shard_of(k)]@, k)) by {
            if all.contains(k) {
                let i = choose|i: int| 0 <= i < all.len() && all[i] == k;
                if i >= pre.len() {
                    let j = i - pre.len();
                    assert(ks[j] == b[j].key@);
                    assert(shard_of(b[j].key@) == n - 1);
                } else {
                    assert(pre.contains(k));
                }
            }
            if shard_of(k) < n && bucket_has(data[shard_of(k)]@, k) {
                if shard_of(k) == n - 1 {
                    let j = choose|j: int| 0 <= j < b.len() && (#[trigger] b[j]).key@ == k;
                    assert(all[pre.len() + j] == ks[j]);
                } else {
                    assert(pre.contains(k));
                    let i = choose|i: int| 0 <= i < pre.len() && pre[i] == k;
                    assert(all[i] == pre[i]);
                }
            }
        }
        assert forall|i: int, j: int|
            0 <= i < all.len() && 0 <= j < all.len() && i != j implies all[i] != all[j] by {
            if i < pre.len() && j < pre.len() {
            } else if i >= pre.len() && j >= pre.len() {
                assert(ks[i - pre.len()] == b[i - pre.len()].key@);
                assert(ks[j - pre.len()] == b[j - pre.len()].key@);
                assert(bucket_unique(data[n - 1]@));
            } else if i < pre.len() {
                assert(pre.contains(all[i]));
                assert(ks[j - pre.len()] == b[j - pre.len()].key@);
                assert(shard_of(b[j - pre.len()].key@) == n - 1);
            } else {
                assert(pre.contains(all[j]));
                assert(ks[i - pre.len()] == b[i - pre.len()].key@);
                assert(shard_of(b[i - pre.len()].key@) == n - 1);
            }
        }
    }
}

/// The dictionary of the database.
pub struct HashShard {
    data: Vec<Vec<Slot>>,
}

impl View for HashShard {
    type V = Map<Seq<char>, EntryView>;

    closed spec fn view(&self) -> Map<Seq<char>, EntryView> {
        shard_view(self.data@)
    }
}

/// `hash_funcion` decides `shard_of`.
fn hash_funcion(key: &str) -> (r: usize)
    ensures
        r == shard_of(key@),
        r < 10,
{
    key.len() % HASH_NUMBER
}

impl HashShard {
    /// The buckets are well formed; every value is well formed.
    pub closed spec fn wf(&self) -> bool {
        buckets_wf(self.data@)
    }

    /// The keys in the order `keys` lists them.
    pub closed spec fn keys_seq(&self) -> Seq<Seq<char>> {
        keys_upto(self.data@, 10)
    }

    /// The keys of the dictionary, each once, and only those.
    pub proof fn lemma_keys_seq(&self)
        requires
            self.wf(),
        ensures
            self.keys_seq().no_duplicates(),
            forall|k: Seq<char>| self.keys_seq().contains(k) <==> self@.contains_key(k),
            self.keys_seq().len() == self@.dom().len(),
            self@.dom().finite(),
    {
        lemma_keys_upto(self.data@, 10);
        assert forall|k: Seq<char>| self.keys_seq().contains(k) <==> self@.contains_key(k) by {
            if self.keys_seq().contains(k) {
                let b = shard_of(k);
                assert(0 <= b < 10);
            }
        }
        assert(self.keys_seq().to_set() =~= self@.dom());
        self.keys_seq().unique_seq_to_set();
    }

    /// Every value in the dictionary is well formed.
    pub proof fn lemma_values_wf(&self)
        requires
            self.wf(),
        ensures
            forall|k: Seq<char>| #[trigger] self@.contains_key(k) ==> self@[k].0.wf(),
    {
        assert forall|k: Seq<char>| #[trigger] self@.contains_key(k) implies self@[k].0.wf() by {
            let b = shard_of(k);
            let i = bucket_pos(self.data@[b]@, k);
            assert(self.data@[b]@[i].value@.wf());
        }
    }

    /// A dictionary over the given buckets.
    pub fn new_from_hs(data: Vec<Vec<Slot>>) -> (r: HashShard)
        requires
            buckets_wf(data@),
        ensures
            r.wf(),
            r@ == shard_view(data@),
    {
        HashShard { data }
    }

    /// An empty dictionary.
    pub fn new() -> (r: HashShard)
        ensures
            r.wf(),
            r@ == Map::<Seq<char>, EntryView>::empty(),
    {
        let mut data: Vec<Vec<Slot>> = Vec::with_capacity(HASH_NUMBER);
        let mut i: usize = 0;
        while i < HASH_NUMBER
            invariant
                i <= 10,
                data@.len() == i,
                forall|b: int| 0 <= b < i ==> (#[trigger] data@[b])@.len() == 0,
            decreases 10 - i,
        {
            data.push(Vec::new());
            i = i + 1;
        }
        let r = HashShard { data };
        assert(r@ =~= Map::<Seq<char>, EntryView>::empty());
        r
    }

    /// `key` is in the dictionary.
    pub fn contains_key(&self, key: &str) -> (r: bool)
        requires
            self.wf(),
        ensures
            r == self@.contains_key(key@),
    {
        let b = hash_funcion(key);
        let k = String::from_str(key);
        find(&self.data[b], &k).is_some()
    }

    /// The slot of `key`, if the dictionary has it.
    pub fn get(&self, key: &str) -> (r: Option<&Slot>)
        requires
            self.wf(),
        ensures
            match r {
                Some(s) => self@.contains_key(key@) && s.key@ == key@ && s.entry() == self@[key@]
                    && s.value@.wf(),
                None => !self@.contains_key(key@),
            },
    {
        let b = hash_funcion(key);
        let k = String::from_str(key);
        match find(&self.data[b], &k) {
            Some(i) => {
                proof {
                    lemma_bucket_pos(self.data@[b as int]@, i as int);
                }
                Some(&self.data[b][i])
            },
            None => None,
        }
    }

    /// Marks `key` as accessed at `now` and gives the seconds since its
    /// previous access (zero if that lies after `now`).
    pub fn touch(&mut self, key: &str, now: u64) -> (r: Option<u64>)
        requires
            old(self).wf(),
        ensures
            final(self).wf(),
            match r {
                Some(d) => old(self)@.contains_key(key@) && d == (if now >= old(self)@[key@].1 {
                    now - old(self)@[key@].1
                } else {
                    0
                }) && final(self)@ == old(self)@.insert(key@, (old(self)@[key@].0, now)),
                None => !old(self)@.contains_key(key@) && final(self)@ == old(self)@,
            },
    {
        let b = hash_funcion(key);
        let k = String::from_str(key);
        match find(&self.data[b], &k) {
            Some(i) => {
                let mut bucket: Vec<Slot> = Vec::new();
                std::mem::swap(&mut self.data[b], &mut bucket);
                let ghost ob = bucket@;
                proof {
                    lemma_bucket_pos(ob, i as int);
                }
                let slot = bucket.remove(i);
                let last = slot.last_access;
                let d = if now >= last {
                    now - last
                } else {
                    0
                };
                let ns = Slot { key: slot.key, value: slot.value, last_access: now };
                bucket.insert(i, ns);
                proof {
                    assert(bucket@ =~= ob.update(i as int, ns));
                    lemma_bucket_update(ob, i as int, ns);
                }
                std::mem::swap(&mut self.data[b], &mut bucket);
                proof {
                    let od = old(self).data@;
                    assert(self.data@ =~= od.update(b as int, self.data@[b as int]));
                    lemma_shard_insert(od, b as int, self.data@[b as int], key@, (ns.value@, now));
                    assert forall|j: int, x: int|
                        0 <= j < 10 && 0 <= x < self.data@[j]@.len() implies shard_of(
                        (#[trigger] self.data@[j]@[x]).key@,
                    ) == j && self.data@[j]@[x].value@.wf() by {
                        if j == b {
                            if x != i {
                                assert(self.data@[j]@[x] == ob[x]);
                            }
                        }
                    }
                }
                Some(d)
            },
            None => None,
        }
    }

    /// Sets `key` to `value`, accessed at `now`, and gives back the value it
    /// had.  A key already present keeps its place among the keys.
    pub fn insert(&mut self, key: String, value: StorageValue, now: u64) -> (r: Option<
        StorageValue,
    >)
        requires
            old(self).wf(),
            value@.wf(),
        ensures
            final(self).wf(),
            final(self)@ == old(self)@.insert(key@, (value@, now)),
            match r {
                Some(v) => old(self)@.contains_key(key@) && v@ == old(self)@[key@].0,
                None => !old(self)@.contains_key(key@),
            },
    {
        let b = hash_funcion(key.as_str());
        let ghost kv = key@;
        let ghost nv = value@;
        let mut bucket: Vec<Slot> = Vec::new();
        std::mem::swap(&mut self.data[b], &mut bucket);
        let ghost ob = bucket@;
        let ghost od = old(self).data@;
        assert(ob == od[b as int]@);
        let ns = Slot { key, value, last_access: now };
        let r = match find(&bucket, &ns.key) {
            Some(i) => {
                proof {
                    lemma_bucket_pos(ob, i as int);
                }
                let slot = bucket.remove(i);
                bucket.insert(i, ns);
                proof {
                    assert(bucket@ =~= ob.update(i as int, ns));
                    lemma_bucket_update(ob, i as int, ns);
                }
                Some(slot.value)
            },
            None => {
                bucket.push(ns);
                proof {
                    lemma_bucket_push(ob, ns);
                }
                None
            },
        };
        proof {
            assert forall|x: int| 0 <= x < bucket@.len() implies shard_of(
                (#[trigger] bucket@[x]).key@,
            ) == b && bucket@[x].value@.wf() by {
                if bucket@[x] != ns {
                    assert(exists|y: int| 0 <= y < ob.len() && bucket@[x] == ob[y]) by {
                        if x < ob.len() {
                            assert(bucket@[x] == ob[x]);
                        }
                    }
                }
            }
            lemma_wf_replace(od, b as int, bucket);
            lemma_shard_insert(od, b as int, bucket, kv, (nv, now));
        }
        std::mem::swap(&mut self.data[b], &mut bucket);
        proof {
            assert(self.data@ =~= od.update(b as int, self.data@[b as int]));
        }
        r
    }

    /// Takes `key` out of the dictionary and gives back its value.
    pub fn remove(&mut self, key: &str) -> (r: Option<StorageValue>)
        requires
            old(self).wf(),
        ensures
            final(self).wf(),
            final(self)@ == old(self)@.remove(key@),
            match r {
                Some(v) => old(self)@.contains_key(key@) && v@ == old(self)@[key@].0,
                None => !old(self)@.contains_key(key@),
            },
    {
        let b = hash_funcion(key);
        let k = String::from_str(key);
        match find(&self.data[b], &k) {
            Some(i) => {
                let mut bucket: Vec<Slot> = Vec::new();
                std::mem::swap(&mut self.data[b], &mut bucket);
                let ghost ob = bucket@;
                let ghost od = old(self).data@;
                proof {
                    lemma_bucket_pos(ob, i as int);
                    lemma_bucket_remove(ob, i as int);
                }
                let slot = bucket.remove(i);
                proof {
                    assert forall|x: int| 0 <= x < bucket@.len() implies shard_of(
                        (#[trigger] bucket@[x]).key@,
                    ) == b && bucket@[x].value@.wf() by {
                        let y = choose|y: int| 0 <= y < ob.len() && ob.remove(i as int)[x] == ob[y];
                        assert(bucket@[x] == ob[y]);
                    }
                    lemma_wf_replace(od, b as int, bucket);
                    lemma_shard_remove(od, b as int, bucket, key@);
                }
                std::mem::swap(&mut self.data[b], &mut bucket);
                proof {
                    assert(self.data@ =~= od.update(b as int, self.data@[b as int]));
                }
                Some(slot.value)
            },
            None => {
                proof {
                    assert(old(self)@.remove(key@) =~= old(self)@);
                }
                None
            },
        }
    }

    /// Empties the dictionary.
    pub fn clear(&mut self)
        requires
            old(self).wf(),
        ensures
            final(self).wf(),
            final(self)@ == Map::<Seq<char>, EntryView>::empty(),
    {
        let mut i: usize = 0;
        while i < HASH_NUMBER
            invariant
                i <= 10,
                self.data@.len() == 10,
                buckets_wf(self.data@),
                forall|b: int| 0 <= b < i ==> (#[trigger] self.data@[b])@.len() == 0,
            decreases 10 - i,
        {
            let ghost od = self.data@;
            let mut e: Vec<Slot> = Vec::new();
            let ghost ne = e;
            proof {
                lemma_wf_replace(od, i as int, e);
            }
            std::mem::swap(&mut self.data[i], &mut e);
            proof {
                assert(self.data@ =~= od.update(i as int, ne));
            }
            i = i + 1;
        }
        assert(self@ =~= Map::<Seq<char>, EntryView>::empty());
    }

    /// The number of keys.
    pub fn len(&self) -> (r: usize)
        requires
            self.wf(),
        ensures
            r == self@.dom().len(),
    {
        let k = self.keys();
        proof {
            self.lemma_keys_seq();
        }
        k.len()
    }

    /// The keys, bucket by bucket.
    pub fn keys(&self) -> (r: Vec<String>)
        requires
            self.wf(),
        ensures
            strings_view(r@) == self.keys_seq(),
    {
        let mut r: Vec<String> = Vec::new();
        let mut b: usize = 0;
        while b < HASH_NUMBER
            invariant
                b <= 10,
                self.data@.len() == 10,
                strings_view(r@) == keys_upto(self.data@, b as int),
            decreases 10 - b,
        {
            let bucket = &self.data[b];
            let mut i: usize = 0;
            while i < bucket.len()
                invariant
                    i <= bucket@.len(),
                    b < 10,
                    bucket == self.data@[b as int],
                    strings_view(r@) == keys_upto(self.data@, b as int) + bucket@.take(
                        i as int,
                    ).map_values(|s: Slot| s.key@),
                decreases bucket.len() - i,
            {
                let ghost r0 = r@;
                let ghost ks0 = bucket@.take(i as int).map_values(|s: Slot| s.key@);
                r.push(bucket[i].key.clone());
                proof {
                    assert(strings_view(r@) =~= strings_view(r0).push(bucket@[i as int].key@));
                    assert(bucket@.take(i + 1).map_values(|s: Slot| s.key@) =~= ks0.push(
                        bucket@[i as int].key@,
                    ));
                }
                i = i + 1;
                proof {
                    assert(strings_view(r@) =~= keys_upto(self.data@, b as int) + bucket@.take(
                        i as int,
                    ).map_values(|s: Slot| s.key@));
                }
            }
            proof {
                assert(bucket@.take(i as int) =~= bucket@);
            }
            b = b + 1;
        }
        r
    }

    /// Every key with a copy of its value, in the order of `keys`.
    pub fn key_value(&self) -> (r: Vec<(String, StorageValue)>)
        requires
            self.wf(),
        ensures
            r@.len() == self.keys_seq().len(),
            forall|i: int|
                0 <= i < r@.len() ==> (#[trigger] r@[i]).0@ == self.keys_seq()[i]
                    && r@[i].1@ == self@[self.keys_seq()[i]].0,
    {
        let mut r: Vec<(String, StorageValue)> = Vec::new();
        let mut b: usize = 0;
        while b < HASH_NUMBER
            invariant
                b <= 10,
                self.wf(),
                r@.len() == keys_upto(self.data@, b as int).len(),
                forall|j: int|
                    0 <= j < r@.len() ==> (#[trigger] r@[j]).0@ == keys_upto(self.data@, b as int)[j]
                        && self@.contains_key(r@[j].0@) && r@[j].1@ == self@[r@[j].0@].0,
            decreases 10 - b,
        {
            let bucket = &self.data[b];
            let ghost pre = keys_upto(self.data@, b as int);
            let mut i: usize = 0;
            while i < bucket.len()
                invariant
                    i <= bucket@.len(),
                    b < 10,
                    self.wf(),
                    bucket == self.data@[b as int],
                    pre == keys_upto(self.data@, b as int),
                    r@.len() == pre.len() + i,
                    forall|j: int|
                        0 <= j < r@.len() ==> (#[trigger] r@[j]).0@ == (pre + bucket@.take(
                            i as int,
                        ).map_values(|s: Slot| s.key@))[j] && self@.contains_key(r@[j].0@)
                            && r@[j].1@ == self@[r@[j].0@].0,
                decreases bucket.len() - i,
            {
                proof {
                    lemma_bucket_pos(bucket@, i as int);
                    assert(shard_of(bucket@[i as int].key@) == b);
                }
                r.push((bucket[i].key.clone(), bucket[i].value.duplicate()));
                i = i + 1;
                proof {
                    let ks = pre + bucket@.take(i as int).map_values(|s: Slot| s.key@);
                    let ks0 = pre + bucket@.take(i - 1).map_values(|s: Slot| s.key@);
                    assert forall|j: int| 0 <= j < r@.len() implies (#[trigger] r@[j]).0@ == ks[j]
                        && self@.contains_key(r@[j].0@) && r@[j].1@ == self@[r@[j].0@].0 by {
                        if j < r@.len() - 1 {
                            assert(ks[j] == ks0[j]);
                        }
                    }
                }
            }
            proof {
                assert(bucket@.take(i as int) =~= bucket@);
                assert(pre + bucket@.map_values(|s: Slot| s.key@) == keys_upto(
                    self.data@,
                    b + 1,
                ));
            }
            b = b + 1;
        }
        r
    }

    /// The bucket that holds `key`, if the dictionary has it.
    pub fn get_atomic_hash(&self, key: &str) -> (r: &Vec<Slot>)
        requires
            self.wf(),
        ensures
            forall|k: Seq<char>|
                shard_of(k) == shard_of(key@) ==> (self@.contains_key(k) <==> bucket_has(r@, k)),
            forall|i: int|
                0 <= i < r@.len() ==> shard_of((#[trigger] r@[i]).key@) == shard_of(key@)
                    && self@.contains_key(r@[i].key@) && self@[r@[i].key@] == r@[i].entry(),
    {
        let b = hash_funcion(key);
        proof {
            assert forall|i: int| 0 <= i < self.data@[b as int]@.len() implies shard_of(
                (#[trigger] self.data@[b as int]@[i]).key@,
            ) == shard_of(key@) && self@.contains_key(self.data@[b as int]@[i].key@)
                && self@[self.data@[b as int]@[i].key@] == self.data@[b as int]@[i].entry() by {
                lemma_bucket_pos(self.data@[b as int]@, i);
            }
        }
        &self.data[b]
    }
}

/// The position of `key` in a bucket.
fn find(bucket: &Vec<Slot>, key: &String) -> (r: Option<usize>)
    ensures
        match r {
            Some(i) => i < bucket@.len() && bucket@[i as int].key@ == key@,
            None => !bucket_has(bucket@, key@),
        },
{
    let mut i: usize = 0;
    while i < bucket.len()
        invariant
            i <= bucket@.len(),
            forall|j: int| 0 <= j < i ==> (#[trigger] bucket@[j]).key@ != key@,
        decreases bucket.len() - i,
    {
        if bucket[i].key == *key {
            return Some(i);
        }
        i = i + 1;
    }
    None
}

} // verus!
