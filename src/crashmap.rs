use std::collections::BTreeMap;
use std::hash::Hasher;

use fnv::FnvHasher;
use vstd::prelude::*;

use crate::atomicbitmask::AtomicBitMask;

verus! {

broadcast use vstd::std_specs::btree::group_btree_axioms, vstd::laws_cmp::group_laws_cmp;

/// What FNV-1a gives for the eight little-endian bytes of a key.
pub uninterp spec fn fnv_hash_of(key: i64) -> u64;

/// Relies on fnv's `FnvHasher`: the hash it finishes with depends on the bytes written
/// alone.
#[verifier::external_body]
fn fnv_hash(key: i64) -> (h: u64)
    ensures
        h == fnv_hash_of(key),
{
    let mut hasher = FnvHasher::default();
    hasher.write(&key.to_le_bytes());
    hasher.finish()
}

/// The bin of a key in a map of `count` bins: the low bits of its hash.
pub open spec fn bin_of(key: i64, count: usize) -> int {
    ((fnv_hash_of(key) as usize) % count) as int
}

/// A map from integer keys sharded into a power-of-two number of ordered bins, with
/// a bitmap of the bins that hold entries.
pub struct CrashMap<V> {
    bins: Vec<BTreeMap<i64, V>>,
    bin_count: usize,
    bin_scale: Ghost<nat>,
    count: usize,
    occupation: AtomicBitMask,
    model: Ghost<Map<i64, V>>,
}

impl<V> View for CrashMap<V> {
    type V = Map<i64, V>;

    closed spec fn view(&self) -> Map<i64, V> {
        self.model@
    }
}

impl<V> CrashMap<V> {
    pub closed spec fn wf(&self) -> bool {
        let cap = self.bin_count as int;
        &&& self.bin_count >= 1
        &&& self.bin_count == vstd::arithmetic::power2::pow2(self.bin_scale@)
        &&& self.bins.len() == cap
        &&& self.occupation.wf()
        &&& self.occupation@.len() == cap
        &&& self.model@.dom().finite()
        &&& self.count == self.model@.len()
        &&& forall|k: i64| #[trigger] self.model@.contains_key(k) <==> self.bins@[bin_of(k, self.bin_count)]@.contains_key(k)
        &&& forall|k: i64| self.model@.contains_key(k) ==> #[trigger] self.model@[k] == self.bins@[bin_of(k, self.bin_count)]@[k]
        &&& forall|b: int, k: i64| 0 <= b < cap && #[trigger] self.bins@[b]@.contains_key(k) ==> bin_of(k, self.bin_count) == b
        &&& forall|b: int| 0 <= b < cap && !#[trigger] self.occupation@[b] ==> self.bins@[b]@.dom().is_empty()
    }

    /// The number of bins.
    pub closed spec fn spec_capacity(&self) -> int {
        self.bin_count as int
    }
}

/// A well-formed map holds finitely many keys.
pub proof fn lemma_map_finite<V>(m: &CrashMap<V>)
    requires
        m.wf(),
    ensures
        m@.dom().finite(),
{
}

/// A well-formed set holds finitely many keys.
pub proof fn lemma_set_finite(s: &CrashSet)
    requires
        s.wf(),
    ensures
        s@.finite(),
{
}

/// A power of two that fits in `usize` leaves room for 63 more.
proof fn lemma_pow2_fits(s: nat, v: int)
    requires
        v == vstd::arithmetic::power2::pow2(s),
        v <= usize::MAX,
    ensures
        v + 63 <= usize::MAX,
{
    vstd::arithmetic::power2::lemma2_to64();
    vstd::arithmetic::power2::lemma_pow2_unfold(64);
    if usize::MAX == 0xffff_ffff {
        if s > 32 {
            vstd::arithmetic::power2::lemma_pow2_strictly_increases(32, s);
        }
        if s < 31 {
            vstd::arithmetic::power2::lemma_pow2_strictly_increases(s, 31);
        }
    } else {
        if s > 64 {
            vstd::arithmetic::power2::lemma_pow2_strictly_increases(64, s);
        }
        if s < 63 {
            vstd::arithmetic::power2::lemma_pow2_strictly_increases(s, 63);
        }
    }
}

impl<V> CrashMap<V> {
    /// An empty map with at least `capacity` bins.
    pub fn with_capacity(capacity: usize) -> (r: CrashMap<V>)
        requires
            capacity <= usize::MAX / 2 + 1,
        ensures
            r.wf(),
            r@ == Map::<i64, V>::empty(),
            r@.dom().finite(),
            r.spec_capacity() >= capacity,
            r.spec_capacity() == 1 || r.spec_capacity() < 2 * capacity,
            exists|s: nat| r.spec_capacity() == #[trigger] vstd::arithmetic::power2::pow2(s),
    {
        let mut capacity_actual: usize = 1;
        let ghost mut bin_scale: nat = 0;
        proof {
            vstd::arithmetic::power2::lemma2_to64();
        }
        while capacity_actual < capacity
            invariant
                capacity <= usize::MAX / 2 + 1,
                1 <= capacity_actual,
                capacity_actual == vstd::arithmetic::power2::pow2(bin_scale),
                bin_scale > 0 ==> capacity_actual < 2 * capacity,
            decreases usize::MAX - capacity_actual,
        {
            capacity_actual = capacity_actual * 2;
            proof {
                vstd::arithmetic::power2::lemma_pow2_unfold(bin_scale + 1);
                bin_scale = bin_scale + 1;
            }
        }
        proof {
            lemma_pow2_fits(bin_scale, capacity_actual as int);
        }
        let mut bins: Vec<BTreeMap<i64, V>> = Vec::new();
        while bins.len() < capacity_actual
            invariant
                bins.len() <= capacity_actual,
                forall|b: int| 0 <= b < bins.len() ==> (#[trigger] bins@[b])@ == Map::<i64, V>::empty(),
            decreases capacity_actual - bins.len(),
        {
            bins.push(BTreeMap::new());
        }
        let r = CrashMap {
            bins,
            bin_count: capacity_actual,
            bin_scale: Ghost(bin_scale),
            count: 0,
            occupation: AtomicBitMask::new(capacity_actual),
            model: Ghost(Map::empty()),
        };
        proof {
            assert forall|b: int| 0 <= b < capacity_actual && !#[trigger] r.occupation@[b] implies r.bins@[b]@.dom().is_empty() by {
                assert(r.bins@[b]@.dom() =~= Set::empty());
            }
        }
        r
    }

    pub fn get_capacity(&self) -> (r: usize)
        requires
            self.wf(),
        ensures
            r == self.spec_capacity(),
    {
        self.bin_count
    }

    pub fn len(&self) -> (r: usize)
        requires
            self.wf(),
        ensures
            r == self@.len(),
    {
        self.count
    }

    pub fn is_empty(&self) -> (r: bool)
        requires
            self.wf(),
        ensures
            r == (self@.len() == 0),
    {
        self.len() == 0
    }

    fn bin_idx(&self, key: i64) -> (b: usize)
        requires
            self.wf(),
        ensures
            b == bin_of(key, self.bin_count),
            b < self.spec_capacity(),
    {
        let key_hash = fnv_hash(key);
        // The bin count is a power of two, so this keeps the low bits of the hash.
        (key_hash as usize) % self.get_capacity()
    }

    fn get_bin(&self, key: i64) -> (r: &BTreeMap<i64, V>)
        requires
            self.wf(),
        ensures
            *r == self.bins@[bin_of(key, self.bin_count)],
    {
        self.get_bin_idx(key).0
    }

    fn get_bin_idx(&self, key: i64) -> (r: (&BTreeMap<i64, V>, usize))
        requires
            self.wf(),
        ensures
            r.1 == bin_of(key, self.bin_count),
            r.1 < self.spec_capacity(),
            *r.0 == self.bins@[r.1 as int],
    {
        let bin_idx = self.bin_idx(key);
        (&self.bins[bin_idx], bin_idx)
    }

    pub fn contains_key(&self, key: i64) -> (r: bool)
        requires
            self.wf(),
        ensures
            r == self@.contains_key(key),
    {
        let bin = self.get_bin(key);
        bin.contains_key(&key)
    }
}


impl<V> CrashMap<V> {
    /// Applies `f` to the value of `key`, if the key is present.
    pub fn get<R, F: FnOnce(&V) -> R>(&self, key: &i64, f: F) -> (r: Option<R>)
        requires
            self.wf(),
            self@.contains_key(*key) ==> f.requires((&self@[*key],)),
        ensures
            r is None <==> !self@.contains_key(*key),
            r matches Some(x) ==> f.ensures((&self@[*key],), x),
    {
        let bin = self.get_bin(*key);
        match bin.get(key) {
            Some(entry) => Some(f(entry)),
            None => None,
        }
    }

    /// Inserts or replaces the value of `key`; returns the value it replaced.
    pub fn insert(&mut self, key: i64, value: V) -> (r: Option<V>)
        requires
            old(self).wf(),
            old(self)@.len() < usize::MAX,
        ensures
            final(self).wf(),
            final(self)@ == old(self)@.insert(key, value),
            final(self)@.dom().finite(),
            final(self).spec_capacity() == old(self).spec_capacity(),
            old(self)@.contains_key(key) ==> r == Some(old(self)@[key]),
            !old(self)@.contains_key(key) ==> r is None,
    {
        let idx = self.bin_idx(key);
        let ret = self.bins[idx].insert(key, value);
        if self.bins[idx].len() > 0 {
            self.occupation.test_and_set(idx);
        }
        match ret {
            None => {
                self.count = self.count + 1;
            },
            _ => {},
        }
        self.model = Ghost(self.model@.insert(key, value));
        proof {
            let cap = self.spec_capacity();
            assert forall|b: int, k: i64| 0 <= b < cap && #[trigger] self.bins@[b]@.contains_key(k) implies bin_of(k, self.bin_count) == b by {
                if b != idx as int {
                    assert(self.bins@[b] == old(self).bins@[b]);
                } else if k != key {
                    assert(old(self).bins@[b]@.contains_key(k));
                }
            }
            assert forall|b: int| 0 <= b < cap && !#[trigger] self.occupation@[b] implies self.bins@[b]@.dom().is_empty() by {
                assert(b != idx as int);
                assert(self.bins@[b] == old(self).bins@[b]);
            }
            assert forall|k: i64| #[trigger] self.model@.contains_key(k) <==> self.bins@[bin_of(k, self.bin_count)]@.contains_key(k) by {
                }
            assert forall|k: i64| self.model@.contains_key(k) implies #[trigger] self.model@[k] == self.bins@[bin_of(k, self.bin_count)]@[k] by {
                }
        }
        ret
    }

    /// Removes `key`; returns its value if it was present.
    pub fn remove(&mut self, key: i64) -> (r: Option<V>)
        requires
            old(self).wf(),
        ensures
            final(self).wf(),
            final(self)@ == old(self)@.remove(key),
            final(self)@.dom().finite(),
            final(self).spec_capacity() == old(self).spec_capacity(),
            old(self)@.contains_key(key) ==> r == Some(old(self)@[key]),
            !old(self)@.contains_key(key) ==> r is None,
    {
        let idx = self.bin_idx(key);
        let ret = self.bins[idx].remove(&key);
        if self.bins[idx].len() == 0 {
            self.occupation.clear(idx);
        }
        match ret {
            Some(_) => {
                proof {
                            assert(self.model@.dom().contains(key));
                    assert(self.model@.dom().remove(key).len() + 1 == self.model@.dom().len());
                }
                self.count = self.count - 1;
            },
            _ => {},
        }
        self.model = Ghost(self.model@.remove(key));
        proof {
            let cap = self.spec_capacity();
            assert forall|b: int, k: i64| 0 <= b < cap && #[trigger] self.bins@[b]@.contains_key(k) implies bin_of(k, self.bin_count) == b by {
                if b != idx as int {
                    assert(self.bins@[b] == old(self).bins@[b]);
                } else {
                    assert(old(self).bins@[b]@.contains_key(k));
                }
            }
            assert forall|b: int| 0 <= b < cap && !#[trigger] self.occupation@[b] implies self.bins@[b]@.dom().is_empty() by {
                if b != idx as int {
                    assert(self.bins@[b] == old(self).bins@[b]);
                } else {
                    assert(self.bins@[b]@.dom().finite());
                }
            }
            assert forall|k: i64| #[trigger] self.model@.contains_key(k) <==> self.bins@[bin_of(k, self.bin_count)]@.contains_key(k) by {
                }
            assert forall|k: i64| self.model@.contains_key(k) implies #[trigger] self.model@[k] == self.bins@[bin_of(k, self.bin_count)]@[k] by {
                }
        }
        ret
    }
}

impl<V> CrashMap<V> {
    /// Calls `f` on each entry, bin by bin, skipping the bins marked empty.
    pub fn foreach_lockfree<F: FnMut((&i64, &V))>(&self, mut f: F)
        requires
            self.wf(),
            forall|k: &i64, v: &V| f.requires(((k, v),)),
    {
        let cap = self.get_capacity();
        let mut bin_idx: usize = 0;
        while bin_idx < cap
            invariant
                self.wf(),
                cap == self.spec_capacity(),
                forall|k: &i64, v: &V| f.requires(((k, v),)),
            decreases cap - bin_idx,
        {
            if self.occupation.test(bin_idx) {
                let bin = &self.bins[bin_idx];
                for item in bin.iter()
                    invariant
                        forall|k: &i64, v: &V| f.requires(((k, v),)),
                {
                    f(item);
                }
            }
            bin_idx += 1;
        }
    }
}

/// A set of integer keys on top of [`CrashMap`].
pub struct CrashSet {
    map: CrashMap<()>,
}

impl View for CrashSet {
    type V = Set<i64>;

    closed spec fn view(&self) -> Set<i64> {
        self.map@.dom()
    }
}

impl CrashSet {
    pub closed spec fn wf(&self) -> bool {
        self.map.wf()
    }

    pub closed spec fn spec_capacity(&self) -> int {
        self.map.spec_capacity()
    }

    pub fn with_capacity(capacity: usize) -> (r: CrashSet)
        requires
            capacity <= usize::MAX / 2 + 1,
        ensures
            r.wf(),
            r@ == Set::<i64>::empty(),
            r.spec_capacity() >= capacity,
            r.spec_capacity() == 1 || r.spec_capacity() < 2 * capacity,
    {
        let r = CrashSet { map: CrashMap::with_capacity(capacity) };
        assert(r@ =~= Set::<i64>::empty());
        r
    }

    pub fn get_capacity(&self) -> (r: usize)
        requires
            self.wf(),
        ensures
            r == self.spec_capacity(),
    {
        self.map.get_capacity()
    }

    pub fn len(&self) -> (r: usize)
        requires
            self.wf(),
        ensures
            r == self@.len(),
    {
        self.map.len()
    }

    pub fn is_empty(&self) -> (r: bool)
        requires
            self.wf(),
        ensures
            r == (self@.len() == 0),
    {
        self.map.is_empty()
    }

    pub fn contains(&self, key: i64) -> (r: bool)
        requires
            self.wf(),
        ensures
            r == self@.contains(key),
    {
        self.map.contains_key(key)
    }

    /// Adds the key; returns whether it was present already.
    pub fn insert(&mut self, key: i64) -> (r: bool)
        requires
            old(self).wf(),
            old(self)@.len() < usize::MAX,
        ensures
            final(self).wf(),
            final(self)@ == old(self)@.insert(key),
            final(self)@.finite(),
            r == old(self)@.contains(key),
    {
        let r = self.map.insert(key, ()).is_some();
        assert(self@ =~= old(self)@.insert(key));
        r
    }

    /// Removes the key; returns whether it was present.
    pub fn remove(&mut self, key: i64) -> (r: bool)
        requires
            old(self).wf(),
        ensures
            final(self).wf(),
            final(self)@ == old(self)@.remove(key),
            final(self)@.finite(),
            r == old(self)@.contains(key),
    {
        let r = self.map.remove(key).is_some();
        assert(self@ =~= old(self)@.remove(key));
        r
    }
}

impl CrashSet {
    /// Calls `f` on each key, bin by bin, skipping the bins marked empty.
    pub fn foreach_lockfree<F: FnMut(&i64)>(&self, mut f: F)
        requires
            self.wf(),
            forall|k: &i64| f.requires((k,)),
    {
        let cap = self.map.get_capacity();
        let mut bin_idx: usize = 0;
        while bin_idx < cap
            invariant
                self.wf(),
                cap == self.map.spec_capacity(),
                forall|k: &i64| f.requires((k,)),
            decreases cap - bin_idx,
        {
            if self.map.occupation.test(bin_idx) {
                let bin = &self.map.bins[bin_idx];
                for item in bin.iter()
                    invariant
                        forall|k: &i64| f.requires((k,)),
                {
                    f(item.0);
                }
            }
            bin_idx += 1;
        }
    }
}
} // verus!
