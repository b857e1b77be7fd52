//! An open-addressing cache of values keyed by packed positions: a fixed
//! table of 16384 slots, a multiplicative hash for the first slot and linear
//! probing over at most 64 slots. Key 0 marks an empty slot (a position with
//! a card in hand never packs to 0). Entries are never removed; an insert
//! whose 64 slots are all taken by other keys is dropped.
use vstd::prelude::*;

verus! {

/// The number of slots.
pub const CACHE_SLOTS: usize = 16384;

/// The most slots a lookup or an insert visits.
pub const MAX_PROBE: usize = 64;

/// The multiplier of the hash.
pub const HASH_MUL: u64 = 0x9e37_79b9_7f4a_7c15;

/// The first slot probed for `key`: the low 14 bits of `key * HASH_MUL`
/// taken modulo 2^64.
pub open spec fn home(key: u64) -> int {
    (((key as nat * HASH_MUL as nat) % 0x1_0000_0000_0000_0000) % 16384) as int
}

/// The slot visited at step `d` of the probe for `key`.
pub open spec fn probe(key: u64, d: int) -> int {
    (home(key) + d) % 16384
}

fn slot(key: u64) -> (r: usize)
    ensures
        r == home(key),
        r < CACHE_SLOTS,
{
    let h = key.wrapping_mul(HASH_MUL);
    assert(h & 16383 == h % 16384) by (bit_vector);
    (h & 16383) as usize
}

/// The cache.
pub struct ProbeCache<V: Copy> {
    keys: Vec<u64>,
    vals: Vec<Option<V>>,
    len: usize,
    map: Ghost<Map<u64, V>>,
}

impl<V: Copy> View for ProbeCache<V> {
    type V = Map<u64, V>;

    closed spec fn view(&self) -> Map<u64, V> {
        self.map@
    }
}

impl<V: Copy> ProbeCache<V> {
    /// `k` sits at step `d` of its probe, with every slot before it taken.
    closed spec fn placed(self, k: u64, d: int) -> bool {
        &&& 0 <= d < 64
        &&& self.keys@[probe(k, d)] == k
        &&& self.vals@[probe(k, d)] == Some(self.map@[k])
        &&& forall|e: int| 0 <= e < d ==> self.keys@[#[trigger] probe(k, e)] != 0
    }

    /// The table is consistent: every stored key sits once, on its probe,
    /// with its value, and the count is the number of stored keys.
    pub closed spec fn wf(self) -> bool {
        &&& self.keys@.len() == 16384
        &&& self.vals@.len() == 16384
        &&& self.map@.dom().finite()
        &&& self.map@.len() == self.len
        &&& forall|k: u64| #[trigger] self.map@.contains_key(k) ==> k != 0 && exists|d: int| self.placed(k, d)
        &&& forall|i: int| 0 <= i < 16384 && #[trigger] self.keys@[i] != 0 ==> self.map@.contains_key(self.keys@[i])
        &&& forall|i: int, j: int|
            0 <= i < 16384 && 0 <= j < 16384 && #[trigger] self.keys@[i] != 0 && self.keys@[i] == #[trigger] self.keys@[j]
                ==> i == j
    }

    /// Every one of the 64 slots of `key`'s probe holds another key.
    pub closed spec fn probe_full(self, key: u64) -> bool {
        forall|d: int| 0 <= d < 64 ==> self.keys@[#[trigger] probe(key, d)] != 0 && self.keys@[probe(key, d)] != key
    }

    /// An empty cache.
    pub fn new() -> (c: Self)
        ensures
            c.wf(),
            c@ == Map::<u64, V>::empty(),
    {
        let mut keys: Vec<u64> = Vec::new();
        let mut vals: Vec<Option<V>> = Vec::new();
        let mut i: usize = 0;
        while i < CACHE_SLOTS
            invariant
                i <= 16384,
                keys@.len() == i,
                vals@.len() == i,
                forall|j: int| 0 <= j < i ==> #[trigger] keys@[j] == 0,
            decreases 16384 - i,
        {
            keys.push(0);
            vals.push(None);
            i = i + 1;
        }
        let c = ProbeCache { keys, vals, len: 0, map: Ghost(Map::empty()) };
        proof {
            assert(c.map@.dom() =~= Set::<u64>::empty());
            assert forall|key: u64| !c.probe_full(key) by {
                assert(c.keys@[probe(key, 0)] == 0);
            }
        }
        c
    }

    /// The value stored for `key`, if any.
    pub fn get(&self, key: u64) -> (r: Option<V>)
        requires
            self.wf(),
            key != 0,
        ensures
            r == if self@.contains_key(key) {
                Some(self@[key])
            } else {
                None
            },
    {
        let h = slot(key);
        let mut d: usize = 0;
        while d < MAX_PROBE
            invariant
                self.wf(),
                key != 0,
                h == home(key),
                d <= 64,
                forall|e: int| 0 <= e < d ==> self.keys@[#[trigger] probe(key, e)] != 0 && self.keys@[probe(key, e)] != key,
            decreases 64 - d,
        {
            let idx = (h + d) % CACHE_SLOTS;
            let k = self.keys[idx];
            if k == 0 {
                proof {
                    self.lemma_absent(key, d as int);
                }
                return None;
            }
            if k == key {
                proof {
                    self.lemma_found(key, idx as int);
                }
                return self.vals[idx];
            }
            d = d + 1;
        }
        proof {
            self.lemma_absent(key, 64);
        }
        None
    }

    /// A key met on the table is stored with the value in its slot.
    proof fn lemma_found(self, key: u64, idx: int)
        requires
            self.wf(),
            0 <= idx < 16384,
            key != 0,
            self.keys@[idx] == key,
        ensures
            self.map@.contains_key(key),
            self.vals@[idx] == Some(self.map@[key]),
    {
        assert(self.keys@[idx] != 0);
        let d = choose|d: int| self.placed(key, d);
        assert(self.keys@[probe(key, d)] == key);
        assert(probe(key, d) == idx);
    }

    /// A key not met on the first `d` slots of its probe, where either the
    /// `d`-th slot is empty or all 64 were visited, is not stored.
    proof fn lemma_absent(self, key: u64, d: int)
        requires
            self.wf(),
            0 <= d <= 64,
            d < 64 ==> self.keys@[probe(key, d)] == 0,
            forall|e: int| 0 <= e < d ==> self.keys@[#[trigger] probe(key, e)] != key,
        ensures
            !self.map@.contains_key(key),
    {
        if self.map@.contains_key(key) {
            let p = choose|p: int| self.placed(key, p);
            assert(self.keys@[probe(key, p)] == key);
            if p < d {
                assert(self.keys@[probe(key, p)] != key);
            } else if p > d {
                assert(self.keys@[probe(key, d)] != 0);
            }
        }
    }

    /// Where `key` goes: the slot and step of its probe where it is stored
    /// (`true`), or of the first empty slot (`false`); `None` when all 64
    /// slots of the probe hold other keys.
    fn find_slot(&self, key: u64) -> (r: Option<(usize, usize, bool)>)
        requires
            self.wf(),
            key != 0,
        ensures
            r is None ==> self.probe_full(key) && !self.map@.contains_key(key),
            r matches Some((idx, d, true)) ==> idx < 16384 && self.keys@[idx as int] == key,
            r matches Some((idx, d, false)) ==> {
                &&& d < 64
                &&& idx == probe(key, d as int)
                &&& self.keys@[idx as int] == 0
                &&& !self.map@.contains_key(key)
                &&& forall|e: int| 0 <= e < d ==> self.keys@[#[trigger] probe(key, e)] != 0
            },
    {
        let h = slot(key);
        let mut d: usize = 0;
        while d < MAX_PROBE
            invariant
                self.wf(),
                key != 0,
                h == home(key),
                d <= 64,
                forall|e: int| 0 <= e < d ==> self.keys@[#[trigger] probe(key, e)] != 0 && self.keys@[probe(key, e)] != key,
            decreases 64 - d,
        {
            let idx = (h + d) % CACHE_SLOTS;
            let k = self.keys[idx];
            if k == 0 {
                proof {
                    self.lemma_absent(key, d as int);
                }
                return Some((idx, d, false));
            }
            if k == key {
                return Some((idx, d, true));
            }
            d = d + 1;
        }
        proof {
            self.lemma_absent(key, 64);
        }
        None
    }

    /// Stores `val` for `key`: in the key's slot when it is stored already,
    /// else in the first empty slot of its probe; when all 64 slots of the
    /// probe hold other keys, nothing changes.
    pub fn insert(&mut self, key: u64, val: V)
        requires
            old(self).wf(),
            key != 0,
        ensures
            final(self).wf(),
            final(self)@ == old(self)@.insert(key, val) || (old(self).probe_full(key) && final(self)@ == old(self)@),
            // with fewer than 64 keys stored, every insert is stored
            old(self)@.len() < 64 ==> final(self)@ == old(self)@.insert(key, val),
    {
        match self.find_slot(key) {
            None => {
                proof {
                    self.lemma_full_probe_has_64_keys(key);
                }
            },
            Some((idx, _, true)) => {
                proof {
                    self.lemma_found(key, idx as int);
                }
                let ghost before = *self;
                self.vals[idx] = Some(val);
                self.map = Ghost(before.map@.insert(key, val));
                proof {
                    self.lemma_after_update(before, key, val, idx as int);
                }
            },
            Some((idx, d, false)) => {
                let ghost before = *self;
                proof {
                    self.lemma_few_keys(idx as int);
                }
                self.keys[idx] = key;
                self.vals[idx] = Some(val);
                self.len = self.len + 1;
                self.map = Ghost(before.map@.insert(key, val));
                proof {
                    self.lemma_after_add(before, key, val, idx as int, d as int);
                }
            },
        }
    }

    /// The keys on the first `n` slots of `key`'s probe.
    closed spec fn probe_keys(self, key: u64, n: int) -> Set<u64>
        decreases n,
    {
        if n <= 0 {
            Set::empty()
        } else {
            self.probe_keys(key, n - 1).insert(self.keys@[probe(key, n - 1)])
        }
    }

    proof fn lemma_probe_keys(self, key: u64, n: int)
        requires
            self.wf(),
            self.probe_full(key),
            0 <= n <= 64,
        ensures
            self.probe_keys(key, n).finite(),
            self.probe_keys(key, n).len() == n,
            self.probe_keys(key, n).subset_of(self.map@.dom()),
            forall|x: u64| #[trigger] self.probe_keys(key, n).contains(x) ==> exists|d: int| 0 <= d < n && self.keys@[probe(key, d)] == x,
        decreases n,
    {
        if n > 0 {
            self.lemma_probe_keys(key, n - 1);
            let x = self.keys@[probe(key, n - 1)];
            assert(x != 0);
            assert(!self.probe_keys(key, n - 1).contains(x)) by {
                if self.probe_keys(key, n - 1).contains(x) {
                    let d = choose|d: int| 0 <= d < n - 1 && self.keys@[probe(key, d)] == x;
                    assert(self.keys@[probe(key, d)] != 0);
                    assert(probe(key, d) == probe(key, n - 1));
                }
            }
            assert(self.map@.contains_key(x));
            assert forall|y: u64| #[trigger] self.probe_keys(key, n).contains(y) implies exists|d: int|
                0 <= d < n && self.keys@[probe(key, d)] == y by {
                if y != x {
                    assert(self.probe_keys(key, n - 1).contains(y));
                    let d = choose|d: int| 0 <= d < n - 1 && self.keys@[probe(key, d)] == y;
                    assert(0 <= d < n && self.keys@[probe(key, d)] == y);
                } else {
                    assert(self.keys@[probe(key, n - 1)] == y);
                }
            }
        }
    }

    /// A full probe means at least 64 keys are stored.
    pub proof fn lemma_full_probe_has_64_keys(self, key: u64)
        requires
            self.wf(),
            self.probe_full(key),
        ensures
            self@.len() >= 64,
    {
        self.lemma_probe_keys(key, 64);
        vstd::set_lib::lemma_len_subset(self.probe_keys(key, 64), self.map@.dom());
    }

    /// With an empty slot, fewer keys are stored than there are slots.
    proof fn lemma_few_keys(self, empty: int)
        requires
            self.wf(),
            0 <= empty < 16384,
            self.keys@[empty] == 0,
        ensures
            self.map@.len() < 16384,
    {
        let slots = self.keys@.to_set();
        self.keys@.lemma_cardinality_of_set();
        vstd::seq_lib::seq_to_set_is_finite(self.keys@);
        assert(slots.contains(0)) by {
            assert(self.keys@[empty] == 0);
        }
        assert(self.map@.dom().subset_of(slots.remove(0))) by {
            assert forall|k: u64| self.map@.dom().contains(k) implies slots.remove(0).contains(k) by {
                assert(self.map@.contains_key(k));
                let d = choose|d: int| self.placed(k, d);
                assert(self.keys@[probe(k, d)] == k);
                assert(self.keys@.contains(k));
            }
        }
        vstd::set_lib::lemma_len_subset(self.map@.dom(), slots.remove(0));
    }

    proof fn lemma_after_add(self, before: Self, key: u64, val: V, idx: int, d: int)
        requires
            before.wf(),
            key != 0,
            !before.map@.contains_key(key),
            0 <= d < 64,
            idx == probe(key, d),
            before.keys@[idx] == 0,
            forall|e: int| 0 <= e < d ==> before.keys@[#[trigger] probe(key, e)] != 0,
            self.keys@ == before.keys@.update(idx, key),
            self.vals@ == before.vals@.update(idx, Some(val)),
            self.len == before.len + 1,
            self.map@ == before.map@.insert(key, val),
        ensures
            self.wf(),
    {
        assert(self.map@.len() == before.map@.len() + 1);
        assert forall|k: u64| #[trigger] self.map@.contains_key(k) implies k != 0 && exists|p: int| self.placed(k, p) by {
            if k == key {
                assert(self.placed(key, d));
            } else {
                let p = choose|p: int| before.placed(k, p);
                assert(before.keys@[probe(k, p)] == k);
                assert(probe(k, p) != idx);
                assert forall|e: int| 0 <= e < p implies self.keys@[#[trigger] probe(k, e)] != 0 by {
                    assert(before.keys@[probe(k, e)] != 0);
                }
                assert(self.placed(k, p));
            }
        }
        assert forall|i: int| 0 <= i < 16384 && #[trigger] self.keys@[i] != 0 implies self.map@.contains_key(
            self.keys@[i],
        ) by {
            if i != idx {
                assert(before.keys@[i] != 0);
            }
        }
        assert forall|i: int, j: int|
            0 <= i < 16384 && 0 <= j < 16384 && #[trigger] self.keys@[i] != 0 && self.keys@[i] == #[trigger] self.keys@[j]
                implies i == j by {
            if i == idx && j != idx {
                assert(before.keys@[j] == key);
                assert(before.map@.contains_key(key));
            } else if j == idx && i != idx {
                assert(before.keys@[i] == key);
                assert(before.map@.contains_key(key));
            } else if i != idx && j != idx {
                assert(before.keys@[i] != 0 && before.keys@[i] == before.keys@[j]);
            }
        }
    }

    proof fn lemma_after_update(self, before: Self, key: u64, val: V, idx: int)
        requires
            before.wf(),
            key != 0,
            before.map@.contains_key(key),
            0 <= idx < 16384,
            before.keys@[idx] == key,
            self.keys@ == before.keys@,
            self.vals@ == before.vals@.update(idx, Some(val)),
            self.len == before.len,
            self.map@ == before.map@.insert(key, val),
        ensures
            self.wf(),
    {
        assert(self.map@.dom() =~= before.map@.dom());
        assert forall|k: u64| #[trigger] self.map@.contains_key(k) implies k != 0 && exists|p: int| self.placed(k, p) by {
            let p = choose|p: int| before.placed(k, p);
            assert(before.keys@[probe(k, p)] == k);
            if k == key {
                assert(probe(k, p) == idx);
            } else {
                assert(probe(k, p) != idx);
            }
            assert(self.placed(k, p));
        }
    }

    /// The number of keys stored.
    pub fn len(&self) -> (n: usize)
        requires
            self.wf(),
        ensures
            n == self@.len(),
    {
        self.len
    }
}

} // verus!
