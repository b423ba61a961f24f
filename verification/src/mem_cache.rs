//! In-memory drawable cache keyed by tile keys, with last-access tracking
//! and bulk time-based eviction of deep tiles, and the render resolver that
//! falls back to the nearest cached ancestor.

use std::collections::HashMap;

use vstd::prelude::*;

use crate::clip::{clip_from_top_key, is_above, TileClip};
use crate::qtree::{code_depth, key_enc, QTreeKey};

verus! {

broadcast use vstd::std_specs::hash::group_hash_axioms;

/// An access-time entry is stale when its cell is deeper than the base
/// layers (depth above 3) and was last touched more than 20 seconds before
/// now.
pub open spec fn stale_entry(hot: Map<u64, u128>, now: u128, e: u64) -> bool {
    &&& hot.contains_key(e)
    &&& code_depth(e) > 3
    &&& now - hot[e] > 20000
}

/// The set of access-time entries due for eviction.
pub open spec fn stale_set(hot: Map<u64, u128>, now: u128) -> Set<u64> {
    Set::new(|e: u64| stale_entry(hot, now, e))
}

/// Drawable cache keyed by tile keys: the drawables themselves, a
/// last-access timestamp per key, and the key list used to scan for
/// eviction candidates.
pub struct MemoryDrawableCache<T> {
    data_map: HashMap<u64, T>,
    hot_map: HashMap<u64, u128>,
    keys: Vec<QTreeKey>,
}

impl<T> MemoryDrawableCache<T> {
    /// The cached drawables, by key encoding.
    pub closed spec fn contents(self) -> Map<u64, T> {
        self.data_map@
    }

    /// The last-access timestamps, by key encoding.
    pub closed spec fn hot(self) -> Map<u64, u128> {
        self.hot_map@
    }

    /// The cache invariant: both maps track the same keys, and the scan list
    /// holds each exactly once.
    pub closed spec fn wf(self) -> bool {
        &&& self.hot_map@.dom() == self.data_map@.dom()
        &&& forall|i: int|
            0 <= i < self.keys@.len() ==> (#[trigger] self.keys@[i]).wf()
                && self.data_map@.contains_key(key_enc(self.keys@[i]))
        &&& forall|i: int, l: int|
            0 <= i < self.keys@.len() && 0 <= l < self.keys@.len() && i != l ==> key_enc(
                #[trigger] self.keys@[i]) != key_enc(#[trigger] self.keys@[l])
        &&& forall|e: u64| #[trigger]
            self.data_map@.contains_key(e) ==> exists|i: int|
                0 <= i < self.keys@.len() && key_enc(#[trigger] self.keys@[i]) == e
    }

    /// An empty cache.
    pub fn new() -> (r: Self)
        ensures
            r.wf(),
            r.contents() == Map::<u64, T>::empty(),
            r.hot() == Map::<u64, u128>::empty(),
    {
        Self { data_map: HashMap::new(), hot_map: HashMap::new(), keys: Vec::new() }
    }

    /// Looks up the drawable for key; a hit refreshes the key's last-access
    /// timestamp to now.
    pub fn get(&mut self, key: QTreeKey, now: u128) -> (r: Option<&T>)
        requires
            old(self).wf(),
        ensures
            final(self).wf(),
            final(self).contents() == old(self).contents(),
            r is Some <==> old(self).contents().contains_key(key_enc(key)),
            r matches Some(v) ==> *v == old(self).contents()[key_enc(key)],
            final(self).hot() == (if old(self).contents().contains_key(key_enc(key)) {
                old(self).hot().insert(key_enc(key), now)
            } else {
                old(self).hot()
            }),
    {
        let enc = key.inner_key();
        if self.data_map.contains_key(&enc) {
            self.hot_map.insert(enc, now);
            proof {
                assert(self.hot_map@.dom() =~= self.data_map@.dom());
                assert(self.data_map@ == old(self).data_map@);
                assert(self.keys@ == old(self).keys@);
                assert(forall|i: int|
                    0 <= i < self.keys@.len() ==> (#[trigger] self.keys@[i]).wf()
                        && self.data_map@.contains_key(key_enc(self.keys@[i])));
                assert(forall|i: int, l: int|
                    0 <= i < self.keys@.len() && 0 <= l < self.keys@.len() && i != l ==> key_enc(
                        #[trigger] self.keys@[i]) != key_enc(#[trigger] self.keys@[l]));
                assert(forall|e: u64| #[trigger]
                    self.data_map@.contains_key(e) ==> exists|i: int|
                        0 <= i < self.keys@.len() && key_enc(#[trigger] self.keys@[i]) == e);
                assert(self.wf());
            }
            self.data_map.get(&enc)
        } else {
            None
        }
    }

    /// Stores a drawable for key at access time now. When more than 500
    /// entries are tracked afterwards, every stale deep entry is evicted
    /// from both maps and the list of evicted keys is returned so the caller
    /// can release resources tied to them.
    #[verifier::rlimit(100)]
    pub fn put(&mut self, key: QTreeKey, value: T, now: u128) -> (evicted: Vec<QTreeKey>)
        requires
            old(self).wf(),
        ensures
            final(self).wf(),
            ({
                let c1 = old(self).contents().insert(key_enc(key), value);
                let h1 = old(self).hot().insert(key_enc(key), now);
                if h1.dom().len() > 500 {
                    &&& final(self).contents() == c1.remove_keys(stale_set(h1, now))
                    &&& final(self).hot() == h1.remove_keys(stale_set(h1, now))
                    &&& forall|i: int, l: int|
                        0 <= i < evicted@.len() && 0 <= l < evicted@.len() && i != l ==> key_enc(
                            #[trigger] evicted@[i]) != key_enc(#[trigger] evicted@[l])
                    &&& forall|i: int|
                        0 <= i < evicted@.len() ==> stale_set(h1, now).contains(
                            key_enc(#[trigger] evicted@[i]))
                    &&& forall|e: u64| #[trigger]
                        stale_set(h1, now).contains(e) ==> exists|i: int|
                            0 <= i < evicted@.len() && key_enc(#[trigger] evicted@[i]) == e
                } else {
                    &&& final(self).contents() == c1
                    &&& final(self).hot() == h1
                    &&& evicted@.len() == 0
                }
            }),
    {
        proof {
            use_type_invariant(key);
            crate::qtree::lemma_key_decode(key);
        }
        let enc = key.inner_key();
        if !self.data_map.contains_key(&enc) {
            self.keys.push(key);
        }
        self.data_map.insert(enc, value);
        self.hot_map.insert(enc, now);
        let ghost c1 = self.data_map@;
        let ghost h1 = self.hot_map@;
        proof {
            assert(self.hot_map@.dom() =~= self.data_map@.dom());
            assert forall|e: u64| #[trigger]
                self.data_map@.contains_key(e) implies exists|i: int|
                    0 <= i < self.keys@.len() && key_enc(#[trigger] self.keys@[i]) == e by {
                if !old(self).data_map@.contains_key(e) {
                    assert(e == key_enc(key));
                    assert(key_enc(self.keys@[self.keys@.len() - 1]) == e);
                } else {
                    let i0 = choose|i: int|
                        0 <= i < old(self).keys@.len() && key_enc(
                            #[trigger] old(self).keys@[i]) == e;
                    assert(key_enc(self.keys@[i0]) == e);
                }
            };
            assert forall|i: int, l: int|
                0 <= i < self.keys@.len() && 0 <= l < self.keys@.len() && i != l
                implies key_enc(#[trigger] self.keys@[i]) != key_enc(
                #[trigger] self.keys@[l]) by {
                if !old(self).data_map@.contains_key(key_enc(key)) {
                    if i < self.keys@.len() - 1 {
                        assert(old(self).data_map@.contains_key(key_enc(self.keys@[i])));
                    }
                    if l < self.keys@.len() - 1 {
                        assert(old(self).data_map@.contains_key(key_enc(self.keys@[l])));
                    }
                }
            };
            assert(self.wf());
        }
        let mut evicted: Vec<QTreeKey> = Vec::new();
        if self.hot_map.len() > 500 {
            let mut idx: usize = 0;
            while idx < self.keys.len()
                invariant
                    self.wf(),
                    self.data_map@ == c1,
                    self.hot_map@ == h1,
                    0 <= idx <= self.keys@.len(),
                    forall|i: int, l: int|
                        0 <= i < evicted@.len() && 0 <= l < evicted@.len() && i != l ==> key_enc(
                            #[trigger] evicted@[i]) != key_enc(#[trigger] evicted@[l]),
                    forall|i: int|
                        0 <= i < evicted@.len() ==> stale_entry(
                            h1, now, key_enc(#[trigger] evicted@[i])) && (#[trigger] evicted@[
                        i]).wf(),
                    forall|j: int|
                        0 <= j < idx && stale_entry(h1, now, key_enc(#[trigger] self.keys@[j]))
                            ==> exists|i: int|
                                0 <= i < evicted@.len() && key_enc(#[trigger] evicted@[i])
                                    == key_enc(self.keys@[j]),
                    forall|i: int|
                        0 <= i < evicted@.len() ==> exists|j: int|
                            0 <= j < idx && #[trigger] evicted@[i] == self.keys@[j],
                decreases self.keys@.len() - idx,
            {
                let k = self.keys[idx];
                proof {
                    use_type_invariant(k);
                    crate::qtree::lemma_key_decode(k);
                }
                let kenc = k.inner_key();
                let t: u128 = *self.hot_map.get(&kenc).unwrap();
                if k.depth() > 3 && now > t && now - t > 20000 {
                    let ghost prev = evicted@;
                    evicted.push(k);
                    proof {
                        assert forall|j: int|
                            0 <= j < idx + 1 && stale_entry(
                                h1, now, key_enc(#[trigger] self.keys@[j])) implies exists|i: int|
                                0 <= i < evicted@.len() && key_enc(#[trigger] evicted@[i])
                                    == key_enc(self.keys@[j]) by {
                            if j < idx && stale_entry(h1, now, key_enc(self.keys@[j])) {
                                let i0 = choose|i: int|
                                    0 <= i < prev.len() && key_enc(#[trigger] prev[i]) == key_enc(
                                        self.keys@[j]);
                                assert(key_enc(evicted@[i0]) == key_enc(self.keys@[j]));
                            }
                            if j == idx {
                                assert(key_enc(evicted@[evicted@.len() - 1]) == key_enc(
                                    self.keys@[j]));
                            }
                        };
                    }
                }
                idx = idx + 1;
            }
            proof {
                // the scan list covers the whole map, so the collected keys
                // are exactly the stale entries
                assert forall|e: u64| #[trigger]
                    stale_set(h1, now).contains(e) implies exists|i: int|
                        0 <= i < evicted@.len() && key_enc(#[trigger] evicted@[i]) == e by {
                    let j0 = choose|j: int|
                        0 <= j < self.keys@.len() && key_enc(#[trigger] self.keys@[j]) == e;
                    assert(stale_entry(h1, now, key_enc(self.keys@[j0])));
                };
            }
            let ghost all_evicted = evicted@;
            let ghost keys1 = self.keys@;
            let mut i2: usize = 0;
            while i2 < evicted.len()
                invariant
                    evicted@ == all_evicted,
                    self.keys@ == keys1,
                    forall|i: int|
                        0 <= i < keys1.len() ==> (#[trigger] keys1[i]).wf() && c1.contains_key(
                            key_enc(keys1[i])),
                    forall|i: int, l: int|
                        0 <= i < keys1.len() && 0 <= l < keys1.len() && i != l ==> key_enc(
                            #[trigger] keys1[i]) != key_enc(#[trigger] keys1[l]),
                    forall|e: u64| #[trigger]
                        c1.contains_key(e) ==> exists|i: int|
                            0 <= i < keys1.len() && key_enc(#[trigger] keys1[i]) == e,
                    0 <= i2 <= evicted@.len(),
                    forall|a: u64| #[trigger]
                        self.data_map@.contains_key(a) <==> (c1.contains_key(a) && !(exists|
                        i: int|
                            0 <= i < i2 && key_enc(#[trigger] evicted@[i]) == a)),
                    forall|a: u64| #[trigger]
                        self.hot_map@.contains_key(a) <==> (h1.contains_key(a) && !(exists|
                        i: int|
                            0 <= i < i2 && key_enc(#[trigger] evicted@[i]) == a)),
                    forall|a: u64| #[trigger]
                        self.data_map@.contains_key(a) ==> self.data_map@[a] == c1[a],
                    forall|a: u64| #[trigger]
                        self.hot_map@.contains_key(a) ==> self.hot_map@[a] == h1[a],
                decreases evicted@.len() - i2,
            {
                let k = evicted[i2];
                let kenc = k.inner_key();
                self.data_map.remove(&kenc);
                self.hot_map.remove(&kenc);
                i2 = i2 + 1;
            }
            proof {
                assert forall|a: u64|
                    (exists|i: int|
                        0 <= i < evicted@.len() && key_enc(#[trigger] evicted@[i]) == a)
                        <==> #[trigger] stale_set(h1, now).contains(a) by {};
                assert(self.data_map@ =~= c1.remove_keys(stale_set(h1, now)));
                assert(self.hot_map@ =~= h1.remove_keys(stale_set(h1, now)));
            }
            let ghost old_keys = self.keys@;
            let mut new_keys: Vec<QTreeKey> = Vec::new();
            let mut i3: usize = 0;
            while i3 < self.keys.len()
                invariant
                    self.keys@ == old_keys,
                    forall|i: int|
                        0 <= i < old_keys.len() ==> (#[trigger] old_keys[i]).wf() && c1.contains_key(
                            key_enc(old_keys[i])),
                    forall|i: int, l: int|
                        0 <= i < old_keys.len() && 0 <= l < old_keys.len() && i != l ==> key_enc(
                            #[trigger] old_keys[i]) != key_enc(#[trigger] old_keys[l]),
                    self.data_map@ == c1.remove_keys(stale_set(h1, now)),
                    0 <= i3 <= old_keys.len(),
                    forall|i: int|
                        0 <= i < new_keys@.len() ==> (#[trigger] new_keys@[i]).wf()
                            && self.data_map@.contains_key(key_enc(new_keys@[i])),
                    forall|i: int, l: int|
                        0 <= i < new_keys@.len() && 0 <= l < new_keys@.len() && i != l ==> key_enc(
                            #[trigger] new_keys@[i]) != key_enc(#[trigger] new_keys@[l]),
                    forall|j: int|
                        0 <= j < i3 && self.data_map@.contains_key(key_enc(
                            #[trigger] old_keys[j])) ==> exists|i: int|
                            0 <= i < new_keys@.len() && key_enc(#[trigger] new_keys@[i])
                                == key_enc(old_keys[j]),
                    forall|i: int|
                        0 <= i < new_keys@.len() ==> exists|j: int|
                            0 <= j < i3 && #[trigger] new_keys@[i] == old_keys[j],
                decreases old_keys.len() - i3,
            {
                let k = self.keys[i3];
                let ghost prev = new_keys@;
                if self.data_map.contains_key(&k.inner_key()) {
                    proof {
                        use_type_invariant(k);
                    }
                    new_keys.push(k);
                }
                proof {
                    assert forall|j: int|
                        0 <= j < i3 + 1 && self.data_map@.contains_key(key_enc(
                            #[trigger] old_keys[j])) implies exists|i: int|
                            0 <= i < new_keys@.len() && key_enc(#[trigger] new_keys@[i])
                                == key_enc(old_keys[j]) by {
                        if j < i3 && self.data_map@.contains_key(key_enc(old_keys[j])) {
                            let i0 = choose|i: int|
                                0 <= i < prev.len() && key_enc(#[trigger] prev[i]) == key_enc(
                                    old_keys[j]);
                            assert(key_enc(new_keys@[i0]) == key_enc(old_keys[j]));
                        }
                        if j == i3 && self.data_map@.contains_key(key_enc(old_keys[j])) {
                            assert(key_enc(new_keys@[new_keys@.len() - 1]) == key_enc(
                                old_keys[j]));
                        }
                    };
                }
                i3 = i3 + 1;
            }
            let mut new_keys = new_keys;
            std::mem::swap(&mut self.keys, &mut new_keys);
            proof {
                assert forall|e: u64| #[trigger]
                    self.data_map@.contains_key(e) implies exists|i: int|
                        0 <= i < self.keys@.len() && key_enc(#[trigger] self.keys@[i]) == e by {
                    assert(c1.contains_key(e));
                    let j0 = choose|j: int|
                        0 <= j < keys1.len() && key_enc(#[trigger] keys1[j]) == e;
                    assert(key_enc(old_keys[j0]) == e);
                    assert(self.data_map@.contains_key(key_enc(old_keys[j0])));
                    let i1 = choose|i: int|
                        0 <= i < self.keys@.len() && key_enc(#[trigger] self.keys@[i]) == key_enc(
                            old_keys[j0]);
                };
                assert(self.hot_map@.dom() =~= self.data_map@.dom());
            }
        }
        evicted
    }

    /// Unconditionally evicts one entry from both maps.
    #[verifier::rlimit(100)]
    pub fn remove(&mut self, key: QTreeKey)
        requires
            old(self).wf(),
        ensures
            final(self).wf(),
            final(self).contents() == old(self).contents().remove(key_enc(key)),
            final(self).hot() == old(self).hot().remove(key_enc(key)),
    {
        let enc = key.inner_key();
        self.data_map.remove(&enc);
        self.hot_map.remove(&enc);
        let ghost old_keys = self.keys@;
        let mut new_keys: Vec<QTreeKey> = Vec::new();
        let mut i: usize = 0;
        while i < self.keys.len()
            invariant
                self.keys@ == old_keys,
                forall|j: int|
                    0 <= j < old_keys.len() ==> (#[trigger] old_keys[j]).wf()
                        && old(self).data_map@.contains_key(key_enc(old_keys[j])),
                forall|j: int, l: int|
                    0 <= j < old_keys.len() && 0 <= l < old_keys.len() && j != l ==> key_enc(
                        #[trigger] old_keys[j]) != key_enc(#[trigger] old_keys[l]),
                self.data_map@ == old(self).data_map@.remove(key_enc(key)),
                0 <= i <= old_keys.len(),
                forall|j: int|
                    0 <= j < new_keys@.len() ==> (#[trigger] new_keys@[j]).wf()
                        && self.data_map@.contains_key(key_enc(new_keys@[j])),
                forall|j: int, l: int|
                    0 <= j < new_keys@.len() && 0 <= l < new_keys@.len() && j != l ==> key_enc(
                        #[trigger] new_keys@[j]) != key_enc(#[trigger] new_keys@[l]),
                forall|j: int|
                    0 <= j < i && self.data_map@.contains_key(key_enc(#[trigger] old_keys[j]))
                        ==> exists|l: int|
                            0 <= l < new_keys@.len() && key_enc(#[trigger] new_keys@[l])
                                == key_enc(old_keys[j]),
                forall|l: int|
                    0 <= l < new_keys@.len() ==> exists|j: int|
                        0 <= j < i && #[trigger] new_keys@[l] == old_keys[j],
            decreases old_keys.len() - i,
        {
            let k = self.keys[i];
            let ghost prev = new_keys@;
            if self.data_map.contains_key(&k.inner_key()) {
                proof {
                    use_type_invariant(k);
                }
                new_keys.push(k);
            }
            proof {
                assert forall|j: int|
                    0 <= j < i + 1 && self.data_map@.contains_key(key_enc(
                        #[trigger] old_keys[j])) implies exists|l: int|
                        0 <= l < new_keys@.len() && key_enc(#[trigger] new_keys@[l]) == key_enc(
                        old_keys[j]) by {
                    if j < i && self.data_map@.contains_key(key_enc(old_keys[j])) {
                        let l0 = choose|l: int|
                            0 <= l < prev.len() && key_enc(#[trigger] prev[l]) == key_enc(
                                old_keys[j]);
                        assert(key_enc(new_keys@[l0]) == key_enc(old_keys[j]));
                    }
                    if j == i && self.data_map@.contains_key(key_enc(old_keys[j])) {
                        assert(key_enc(new_keys@[new_keys@.len() - 1]) == key_enc(old_keys[j]));
                    }
                };
            }
            i = i + 1;
        }
        let mut new_keys = new_keys;
        std::mem::swap(&mut self.keys, &mut new_keys);
        proof {
            assert forall|e: u64| #[trigger]
                self.data_map@.contains_key(e) implies exists|l: int|
                    0 <= l < self.keys@.len() && key_enc(#[trigger] self.keys@[l]) == e by {
                assert(old(self).data_map@.contains_key(e));
                let j0 = choose|j: int|
                    0 <= j < old(self).keys@.len() && key_enc(
                        #[trigger] old(self).keys@[j]) == e;
                assert(key_enc(old_keys[j0]) == e);
                assert(self.data_map@.contains_key(key_enc(old_keys[j0])));
                let l1 = choose|l: int|
                    0 <= l < self.keys@.len() && key_enc(#[trigger] self.keys@[l]) == key_enc(
                        old_keys[j0]);
            };
            assert(self.hot_map@.dom() =~= self.data_map@.dom());
        }
    }

    /// Resolves a missing tile to the nearest cached ancestor, together with
    /// the sub-rectangle of the ancestor's tile that covers the missing
    /// cell. A hit refreshes the ancestor's last-access timestamp. Nothing
    /// is returned when no ancestor is cached.
    #[verifier::rlimit(100)]
    pub fn resolve_fallback(&mut self, key: QTreeKey, now: u128) -> (r: Option<(
        QTreeKey,
        TileClip,
    )>)
        requires
            old(self).wf(),
        ensures
            final(self).wf(),
            final(self).contents() == old(self).contents(),
            r is None ==> final(self).hot() == old(self).hot(),
            r is None ==> forall|j: int|
                1 <= j <= key.spec_depth() ==> !old(self).contents().contains_key(
                    #[trigger] crate::qtree::code_anc(key_enc(key), j)),
            r matches Some((a, clip)) ==> {
                &&& is_above(a, key)
                &&& a.spec_depth() < key.spec_depth()
                &&& old(self).contents().contains_key(key_enc(a))
                &&& key_enc(a) == crate::qtree::code_anc(
                    key_enc(key), key.spec_depth() - a.spec_depth())
                &&& forall|j: int|
                    1 <= j < key.spec_depth() - a.spec_depth()
                        ==> !old(self).contents().contains_key(
                        #[trigger] crate::qtree::code_anc(key_enc(key), j))
                &&& clip.scale == vstd::arithmetic::power2::pow2(
                    (key.spec_depth() - a.spec_depth()) as nat)
                &&& clip.dx == key.spec_x() - a.spec_x() * clip.scale
                &&& clip.dy == key.spec_y() - a.spec_y() * clip.scale
                &&& final(self).hot() == old(self).hot().insert(key_enc(a), now)
            },
    {
        proof {
            use_type_invariant(key);
            crate::qtree::lemma_key_decode(key);
            vstd::arithmetic::power2::lemma2_to64();
        }
        let ghost enc_g = key_enc(key);
        let mut p_opt = key.parent();
        let ghost mut j: int = 1;
        loop
            invariant
                old(self).wf(),
                *self == *old(self),
                key.wf(),
                crate::qtree::code_wf(enc_g),
                enc_g == key_enc(key),
                crate::qtree::code_depth(enc_g) == key.spec_depth(),
                crate::qtree::code_x(enc_g) == key.spec_x(),
                crate::qtree::code_y(enc_g) == key.spec_y(),
                1 <= j <= key.spec_depth() + 1,
                p_opt matches Some(p) ==> j <= key.spec_depth() && key_enc(p)
                    == crate::qtree::code_anc(enc_g, j) && p.spec_depth() == key.spec_depth() - j
                    && is_above(p, key),
                p_opt is None ==> j == key.spec_depth() + 1,
                forall|i: int|
                    1 <= i < j ==> !old(self).contents().contains_key(
                        #[trigger] crate::qtree::code_anc(enc_g, i)),
            ensures
                p_opt is None ==> forall|i: int|
                    1 <= i <= key.spec_depth() ==> !old(self).contents().contains_key(
                        #[trigger] crate::qtree::code_anc(enc_g, i)),
                p_opt matches Some(p) ==> j <= key.spec_depth() && key_enc(p)
                    == crate::qtree::code_anc(enc_g, j) && p.spec_depth() == key.spec_depth() - j
                    && is_above(p, key) && old(self).contents().contains_key(key_enc(p)) && (
                forall|i: int|
                    1 <= i < j ==> !old(self).contents().contains_key(
                        #[trigger] crate::qtree::code_anc(enc_g, i))),
                *self == *old(self),
            decreases key.spec_depth() + 1 - j,
        {
            match p_opt {
                None => {
                    break;
                },
                Some(p) => {
                    proof {
                        use_type_invariant(p);
                        crate::qtree::lemma_key_decode(p);
                        crate::qtree::lemma_anc_decode(enc_g, j);
                    }
                    if self.data_map.contains_key(&p.inner_key()) {
                        break;
                    }
                    let next = p.parent();
                    proof {
                        if let Some(pp) = next {
                            vstd::arithmetic::power2::lemma_pow2_pos(j as nat);
                            vstd::arithmetic::power2::lemma_pow2_unfold((j + 1) as nat);
                            vstd::arithmetic::div_mod::lemma_div_denominator(
                                crate::qtree::code_x(enc_g),
                                vstd::arithmetic::power2::pow2(j as nat) as int,
                                2,
                            );
                            vstd::arithmetic::div_mod::lemma_div_denominator(
                                crate::qtree::code_y(enc_g),
                                vstd::arithmetic::power2::pow2(j as nat) as int,
                                2,
                            );
                            assert(key_enc(pp) == crate::qtree::code_anc(enc_g, j + 1));
                        }
                        j = j + 1;
                    }
                    p_opt = next;
                },
            }
        }
        match p_opt {
            None => None,
            Some(a) => {
                let clip = clip_from_top_key(a, key);
                let enc = a.inner_key();
                self.hot_map.insert(enc, now);
                proof {
                    assert(self.hot_map@.dom() =~= self.data_map@.dom());
                    assert(forall|i: int|
                        0 <= i < self.keys@.len() ==> (#[trigger] self.keys@[i]).wf()
                            && self.data_map@.contains_key(key_enc(self.keys@[i])));
                    assert(forall|i: int, l: int|
                        0 <= i < self.keys@.len() && 0 <= l < self.keys@.len() && i != l
                            ==> key_enc(#[trigger] self.keys@[i]) != key_enc(
                            #[trigger] self.keys@[l]));
                    assert forall|e: u64| #[trigger]
                        self.data_map@.contains_key(e) implies exists|i: int|
                            0 <= i < self.keys@.len() && key_enc(#[trigger] self.keys@[i])
                                == e by {
                        assert(old(self).data_map@.contains_key(e));
                        let i0 = choose|i: int|
                            0 <= i < old(self).keys@.len() && key_enc(
                                #[trigger] old(self).keys@[i]) == e;
                        assert(key_enc(self.keys@[i0]) == e);
                    };
                    assert(self.wf());
                }
                Some((a, clip))
            },
        }
    }
}

} // verus!
