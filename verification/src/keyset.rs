//! An exact set of byte strings: a hash table keyed by the FNV-1a hash of
//! each string, with every bucket compared byte for byte.
use vstd::prelude::*;
use std::collections::HashMap;

verus! {

pub open spec fn fnv_step(h: u64, b: u8) -> u64 {
    (((h ^ (b as u64)) as nat * 0x100000001b3nat) % 0x1_0000_0000_0000_0000nat) as u64
}

/// The 64-bit FNV-1a hash of `s`.
pub open spec fn fnv(s: Seq<u8>) -> u64
    decreases s.len(),
{
    if s.len() == 0 {
        0xcbf29ce484222325
    } else {
        fnv_step(fnv(s.drop_last()), s.last())
    }
}

fn fnv_hash(bytes: &Vec<u8>) -> (h: u64)
    ensures
        h == fnv(bytes@),
{
    let mut h: u64 = 0xcbf29ce484222325;
    let mut i: usize = 0;
    while i < bytes.len()
        invariant
            i <= bytes.len(),
            h == fnv(bytes@.take(i as int)),
        decreases bytes.len() - i,
    {
        proof {
            assert(bytes@.take(i + 1).drop_last() =~= bytes@.take(i as int));
        }
        h = (h ^ (bytes[i] as u64)).wrapping_mul(0x100000001b3);
        i = i + 1;
    }
    proof {
        assert(bytes@.take(bytes.len() as int) =~= bytes@);
    }
    h
}

fn bytes_equal(a: &Vec<u8>, b: &Vec<u8>) -> (r: bool)
    ensures
        r == (a@ == b@),
{
    if a.len() != b.len() {
        return false;
    }
    let mut i: usize = 0;
    while i < a.len()
        invariant
            i <= a.len(),
            a.len() == b.len(),
            forall|k: int| 0 <= k < i ==> a@[k] == b@[k],
        decreases a.len() - i,
    {
        if a[i] != b[i] {
            return false;
        }
        i = i + 1;
    }
    proof {
        assert(a@ =~= b@);
    }
    true
}

/// A set of byte strings.
pub struct KeySet {
    buckets: HashMap<u64, Vec<Vec<u8>>>,
}

impl KeySet {
    /// Every string is filed under its own hash.
    pub closed spec fn wf(&self) -> bool {
        forall|h: u64, i: int|
            #![trigger self.buckets@[h]@[i]]
            self.buckets@.contains_key(h) && 0 <= i < self.buckets@[h]@.len() ==> fnv(
                self.buckets@[h]@[i]@,
            ) == h
    }

    /// The strings in the set.
    pub closed spec fn contents(&self) -> Set<Seq<u8>> {
        Set::new(
            |k: Seq<u8>|
                self.buckets@.contains_key(fnv(k)) && exists|i: int|
                    0 <= i < self.buckets@[fnv(k)]@.len() && #[trigger] self.buckets@[fnv(k)]@[i]@ == k,
        )
    }

    pub fn new() -> (s: KeySet)
        ensures
            s.wf(),
            s.contents() == Set::<Seq<u8>>::empty(),
    {
        let s = KeySet { buckets: HashMap::new() };
        proof {
            broadcast use vstd::std_specs::hash::group_hash_axioms;
            assert(s.contents() =~= Set::<Seq<u8>>::empty());
        }
        s
    }

    /// Add `key`; returns whether it was not already present.
    pub fn insert(&mut self, key: Vec<u8>) -> (inserted: bool)
        requires
            old(self).wf(),
        ensures
            final(self).wf(),
            inserted == !old(self).contents().contains(key@),
            final(self).contents() == old(self).contents().insert(key@),
    {
        broadcast use vstd::std_specs::hash::group_hash_axioms;

        let h = fnv_hash(&key);
        let ghost m0 = self.buckets@;
        let mut bucket = match self.buckets.remove(&h) {
            Some(b) => b,
            None => Vec::new(),
        };
        let ghost b0 = bucket@;
        proof {
            assert(m0.contains_key(h) ==> b0 == m0[h]@);
            assert(!m0.contains_key(h) ==> b0.len() == 0);
            assert(self.buckets@ == m0.remove(h));
        }
        let mut i: usize = 0;
        while i < bucket.len()
            invariant
                i <= bucket.len(),
                bucket@ == b0,
                h == fnv(key@),
                m0 == old(self).buckets@,
                old(self).wf(),
                self.buckets@ == m0.remove(h),
                m0.contains_key(h) ==> b0 == m0[h]@,
                !m0.contains_key(h) ==> b0.len() == 0,
                forall|k: int| 0 <= k < i ==> bucket@[k]@ != key@,
            decreases bucket.len() - i,
        {
            if bytes_equal(&bucket[i], &key) {
                self.buckets.insert(h, bucket);
                proof {
                    assert(m0.contains_key(h));
                    assert forall|hh: u64| #[trigger] self.buckets@.contains_key(hh) == m0.contains_key(hh)
                        && (m0.contains_key(hh) ==> self.buckets@[hh]@ == m0[hh]@) by {
                    }
                    assert forall|hh: u64, j: int|
                        self.buckets@.contains_key(hh) && 0 <= j < self.buckets@[hh]@.len() implies fnv(
                        #[trigger] self.buckets@[hh]@[j]@,
                    ) == hh by {
                        assert(self.buckets@[hh]@ == old(self).buckets@[hh]@);
                        assert(old(self).buckets@[hh]@[j]@ == self.buckets@[hh]@[j]@);
                    }
                    assert(old(self).contents().contains(key@)) by {
                        assert(old(self).buckets@[fnv(key@)]@[i as int]@ == key@);
                    }
                    assert forall|k: Seq<u8>| self.contents().contains(k) <==> old(self).contents().contains(k) by {
                        if m0.contains_key(fnv(k)) {
                            assert(self.buckets@[fnv(k)]@ == m0[fnv(k)]@);
                        }
                    }
                    assert(self.contents() =~= old(self).contents());
                    assert(old(self).contents().insert(key@) =~= old(self).contents());
                }
                return false;
            }
            i = i + 1;
        }
        let ghost kv = key@;
        bucket.push(key);
        self.buckets.insert(h, bucket);
        proof {
            assert(!old(self).contents().contains(kv)) by {
                if old(self).contents().contains(kv) {
                    let j = choose|j: int|
                        0 <= j < m0[fnv(kv)]@.len() && #[trigger] m0[fnv(kv)]@[j]@ == kv;
                    assert(b0[j]@ == kv);
                }
            }
            assert forall|hh: u64, j: int|
                self.buckets@.contains_key(hh) && 0 <= j < self.buckets@[hh]@.len() implies fnv(
                #[trigger] self.buckets@[hh]@[j]@,
            ) == hh by {
                if hh != h {
                    assert(m0.contains_key(hh));
                    assert(self.buckets@[hh] == m0[hh]);
                    assert(old(self).buckets@[hh]@[j]@ == self.buckets@[hh]@[j]@);
                } else if j < b0.len() {
                    assert(old(self).buckets@[h]@[j]@ == self.buckets@[h]@[j]@);
                }
            }
            assert forall|k: Seq<u8>| self.contents().contains(k) <==> old(self).contents().insert(
                kv,
            ).contains(k) by {
                if k == kv {
                    assert(self.buckets@[h]@[b0.len() as int]@ == kv);
                } else if fnv(k) == h {
                    if self.contents().contains(k) {
                        let j = choose|j: int|
                            0 <= j < self.buckets@[h]@.len() && #[trigger] self.buckets@[h]@[j]@ == k;
                        assert(j < b0.len());
                        assert(old(self).buckets@[h]@[j]@ == k);
                    }
                    if old(self).contents().contains(k) {
                        let j = choose|j: int|
                            0 <= j < m0[h]@.len() && #[trigger] m0[h]@[j]@ == k;
                        assert(self.buckets@[h]@[j]@ == k);
                    }
                } else {
                    assert(self.buckets@.contains_key(fnv(k)) == m0.contains_key(fnv(k)));
                    if m0.contains_key(fnv(k)) {
                        assert(self.buckets@[fnv(k)] == m0[fnv(k)]);
                    }
                }
            }
            assert(self.contents() =~= old(self).contents().insert(kv));
        }
        true
    }
}

} // verus!
