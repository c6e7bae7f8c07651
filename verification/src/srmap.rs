//! The shared-read map engine.
//!
//! One shared ("global") value-set per key, a per-key visibility bitmap with
//! one bit per allocated user slot, a private-override map for users whose
//! value diverges from the shared copy, and a table from external user ids
//! to internal slot indices. Slots are handed out monotonically and never
//! reused; slot 0 is the default slot a user is parked on when a plain
//! insert meets an unregistered id.
//!
//! The executable state keeps each map as a vector of key-value pairs with
//! pairwise distinct keys; contracts speak about the finite maps those
//! lists denote, through [`SRMapView`].

use vstd::prelude::*;

use crate::assoc::{list_to_map, unique_keys, lemma_contains, lemma_index, lemma_push,
    lemma_update, lemma_remove, lemma_aligned_dom};

verus! {

/// Some bit in the bitmap is set.
pub open spec fn has_true(b: Seq<bool>) -> bool {
    exists|j: int| 0 <= j < b.len() && b[j]
}

/// The mathematical state of an [`SRMap`]: the global map, the bitmap
/// table, the override map, the slot table, the highest allocated slot,
/// and the metadata value.
#[verifier::ext_equal]
pub struct SRMapView<M> {
    /// key -> shared value-set
    pub gmap: Map<Seq<char>, Seq<Seq<char>>>,
    /// key -> visibility bitmap, indexed by slot
    pub bmap: Map<Seq<char>, Seq<bool>>,
    /// (user id, key) -> private override value-set
    pub umap: Map<(int, Seq<char>), Seq<Seq<char>>>,
    /// user id -> slot index
    pub ids: Map<int, int>,
    /// highest slot handed out so far; bitmaps have `largest + 1` bits
    pub largest: int,
    /// caller-defined metadata attached to the whole map
    pub meta: M,
}

impl<M> SRMapView<M> {
    /// Structural invariants of a reachable state: the bitmap table covers
    /// exactly the global keys, every bitmap has one bit per allocated
    /// slot, every recorded slot has been allocated, and no global entry
    /// is visible to nobody.
    pub open spec fn wf(self) -> bool {
        &&& self.bmap.dom() == self.gmap.dom()
        &&& 0 <= self.largest
        &&& forall|k: Seq<char>| #[trigger] self.bmap.contains_key(k)
            ==> self.bmap[k].len() == self.largest + 1
        &&& forall|u: int| #[trigger] self.ids.contains_key(u)
            ==> 0 <= self.ids[u] <= self.largest
        &&& forall|k: Seq<char>| #[trigger] self.bmap.contains_key(k) ==> has_true(self.bmap[k])
    }

    /// What user `uid` sees for key `k`: the private override if one
    /// exists, else the global value if the user's bit is set, else
    /// nothing.
    pub open spec fn spec_get(self, k: Seq<char>, uid: int) -> Option<Seq<Seq<char>>> {
        if self.umap.contains_key((uid, k)) {
            Some(self.umap[(uid, k)])
        } else if self.gmap.contains_key(k) && self.ids.contains_key(uid)
            && 0 <= self.ids[uid] < self.bmap[k].len() && self.bmap[k][self.ids[uid]] {
            Some(self.gmap[k])
        } else {
            None
        }
    }

    /// The state after `insert(k, v, uid)`.
    ///
    /// If `k` has a global entry equal to `v`, the user's bit is set (a
    /// no-op for an unregistered user); if it differs, `(uid, k) -> v`
    /// goes to the override map; if `k` is new, it becomes the global
    /// entry, visible only to `uid`'s slot (slot 0 if unregistered).
    pub open spec fn spec_insert(self, k: Seq<char>, v: Seq<Seq<char>>, uid: int) -> SRMapView<M> {
        if self.gmap.contains_key(k) {
            if self.gmap[k] == v {
                if self.ids.contains_key(uid) && 0 <= self.ids[uid] < self.bmap[k].len() {
                    SRMapView {
                        gmap: self.gmap,
                        bmap: self.bmap.insert(k, self.bmap[k].update(self.ids[uid], true)),
                        umap: self.umap,
                        ids: self.ids,
                        largest: self.largest,
                        meta: self.meta,
                    }
                } else {
                    self
                }
            } else {
                SRMapView {
                    gmap: self.gmap,
                    bmap: self.bmap,
                    umap: self.umap.insert((uid, k), v),
                    ids: self.ids,
                    largest: self.largest,
                    meta: self.meta,
                }
            }
        } else {
            let slot = if self.ids.contains_key(uid) { self.ids[uid] } else { 0 };
            SRMapView {
                gmap: self.gmap.insert(k, v),
                bmap: self.bmap.insert(k, Seq::new((self.largest + 1) as nat, |i: int| i == slot)),
                umap: self.umap,
                ids: self.ids.insert(uid, slot),
                largest: self.largest,
                meta: self.meta,
            }
        }
    }

    /// The state after `remove(k, uid)`: the override for `(uid, k)` is
    /// gone; if `uid` is registered and `k` is global, `uid`'s bit is
    /// cleared, and the global entry disappears once no bit is left.
    pub open spec fn spec_remove(self, k: Seq<char>, uid: int) -> SRMapView<M> {
        let umap1 = self.umap.remove((uid, k));
        if self.gmap.contains_key(k) && self.ids.contains_key(uid)
            && 0 <= self.ids[uid] < self.bmap[k].len() {
            let b = self.bmap[k].update(self.ids[uid], false);
            if has_true(b) {
                SRMapView {
                    gmap: self.gmap,
                    bmap: self.bmap.insert(k, b),
                    umap: umap1,
                    ids: self.ids,
                    largest: self.largest,
                    meta: self.meta,
                }
            } else {
                SRMapView {
                    gmap: self.gmap.remove(k),
                    bmap: self.bmap.remove(k),
                    umap: umap1,
                    ids: self.ids,
                    largest: self.largest,
                    meta: self.meta,
                }
            }
        } else {
            SRMapView {
                gmap: self.gmap,
                bmap: self.bmap,
                umap: umap1,
                ids: self.ids,
                largest: self.largest,
                meta: self.meta,
            }
        }
    }

    /// The state after `add_user(uid)`: the next slot is allocated and
    /// recorded for `uid`, and every existing bitmap grows one cleared
    /// bit — a fresh user sees nothing until an insert grants visibility.
    pub open spec fn spec_add_user(self, uid: int) -> SRMapView<M> {
        SRMapView {
            gmap: self.gmap,
            bmap: Map::new(
                |k: Seq<char>| self.bmap.contains_key(k),
                |k: Seq<char>| self.bmap[k].push(false),
            ),
            umap: self.umap,
            ids: self.ids.insert(uid, self.largest + 1),
            largest: self.largest + 1,
            meta: self.meta,
        }
    }

    /// The state after `remove_user(uid)`: the user's bit is cleared in
    /// every bitmap and global entries nobody sees any more are dropped.
    /// Overrides and the slot record of the user are kept, so the same id
    /// can later re-earn visibility through inserts.
    pub open spec fn spec_remove_user(self, uid: int) -> SRMapView<M> {
        if self.ids.contains_key(uid) {
            let s = self.ids[uid];
            SRMapView {
                gmap: Map::new(
                    |k: Seq<char>| self.gmap.contains_key(k) && self.bmap.contains_key(k)
                        && has_true(self.bmap[k].update(s, false)),
                    |k: Seq<char>| self.gmap[k],
                ),
                bmap: Map::new(
                    |k: Seq<char>| self.gmap.contains_key(k) && self.bmap.contains_key(k)
                        && has_true(self.bmap[k].update(s, false)),
                    |k: Seq<char>| self.bmap[k].update(s, false),
                ),
                umap: self.umap,
                ids: self.ids,
                largest: self.largest,
                meta: self.meta,
            }
        } else {
            self
        }
    }
}

/// The shared-read map engine. `M` is an opaque, caller-defined metadata
/// value carried alongside the map (for instance an epoch stamp).
#[derive(Clone)]
pub struct SRMap<M: Copy> {
    /// Global map: key -> shared value-set.
    pub g_map: Vec<(String, Vec<String>)>,
    /// Bitmap table: key -> one visibility bit per allocated slot, aligned
    /// with `g_map` entry by entry.
    pub b_map: Vec<(String, Vec<bool>)>,
    /// Override map: (user id, key) -> private value-set.
    pub u_map: Vec<((usize, String), Vec<String>)>,
    /// Slot table: user id -> slot index.
    pub id_store: Vec<(usize, usize)>,
    /// Highest slot handed out so far.
    pub largest: usize,
    /// Caller-defined metadata, readable by all users.
    pub meta: M,
}

/// A global-map list as a list of spec-level pairs.
pub open spec fn g_view(l: Seq<(String, Vec<String>)>) -> Seq<(Seq<char>, Seq<Seq<char>>)> {
    l.map_values(|p: (String, Vec<String>)| (p.0@, p.1.deep_view()))
}

/// A bitmap-table list as a list of spec-level pairs.
pub open spec fn b_view(l: Seq<(String, Vec<bool>)>) -> Seq<(Seq<char>, Seq<bool>)> {
    l.map_values(|p: (String, Vec<bool>)| (p.0@, p.1@))
}

/// An override-map list as a list of spec-level pairs.
pub open spec fn u_view(l: Seq<((usize, String), Vec<String>)>) -> Seq<((int, Seq<char>), Seq<Seq<char>>)> {
    l.map_values(|p: ((usize, String), Vec<String>)| ((p.0.0 as int, p.0.1@), p.1.deep_view()))
}

/// A slot-table list as a list of spec-level pairs.
pub open spec fn id_view(l: Seq<(usize, usize)>) -> Seq<(int, int)> {
    l.map_values(|p: (usize, usize)| (p.0 as int, p.1 as int))
}

impl<M: Copy> SRMap<M> {
    /// The global map as a list of spec-level pairs.
    pub open spec fn g_pairs(self) -> Seq<(Seq<char>, Seq<Seq<char>>)> {
        g_view(self.g_map@)
    }

    /// The bitmap table as a list of spec-level pairs.
    pub open spec fn b_pairs(self) -> Seq<(Seq<char>, Seq<bool>)> {
        b_view(self.b_map@)
    }

    /// The override map as a list of spec-level pairs.
    pub open spec fn u_pairs(self) -> Seq<((int, Seq<char>), Seq<Seq<char>>)> {
        u_view(self.u_map@)
    }

    /// The slot table as a list of spec-level pairs.
    pub open spec fn id_pairs(self) -> Seq<(int, int)> {
        id_view(self.id_store@)
    }

    /// Representation invariant: all four lists have pairwise distinct
    /// keys, the bitmap table is aligned with the global map entry by
    /// entry, every bitmap has one bit per allocated slot and at least one
    /// set bit, every recorded slot has been allocated, and one more slot
    /// can still be allocated.
    pub open spec fn wf(self) -> bool {
        &&& unique_keys(self.g_pairs())
        &&& unique_keys(self.u_pairs())
        &&& unique_keys(self.id_pairs())
        &&& self.b_map@.len() == self.g_map@.len()
        &&& forall|i: int| 0 <= i < self.g_map@.len()
            ==> (#[trigger] self.b_map@[i]).0@ == self.g_map@[i].0@
        &&& forall|i: int| 0 <= i < self.b_map@.len()
            ==> (#[trigger] self.b_map@[i]).1@.len() == self.largest + 1
        &&& forall|i: int| 0 <= i < self.b_map@.len() ==> has_true((#[trigger] self.b_map@[i]).1@)
        &&& forall|i: int| 0 <= i < self.id_store@.len()
            ==> (#[trigger] self.id_store@[i]).1 <= self.largest
        &&& self.largest < usize::MAX
    }

    /// The keys of the bitmap table are pairwise distinct too, because
    /// they coincide with the global keys.
    pub proof fn lemma_b_unique(self)
        requires
            self.wf(),
        ensures
            unique_keys(self.b_pairs()),
    {
        assert forall|i: int, j: int| 0 <= i < j < self.b_pairs().len()
            implies self.b_pairs()[i].0 != self.b_pairs()[j].0 by {
            assert(self.g_pairs()[i].0 != self.g_pairs()[j].0);
        }
    }

    /// A well-formed representation denotes a well-formed state.
    pub proof fn lemma_wf_view(self)
        requires
            self.wf(),
        ensures
            self@.wf(),
    {
        self.lemma_b_unique();
        lemma_aligned_dom(self.g_pairs(), self.b_pairs());
        assert forall|k: Seq<char>| #[trigger] self@.bmap.contains_key(k)
            implies self@.bmap[k].len() == self@.largest + 1 && has_true(self@.bmap[k]) by {
            lemma_contains(self.b_pairs(), k);
            let i = choose|i: int| 0 <= i < self.b_pairs().len() && self.b_pairs()[i].0 == k;
            lemma_index(self.b_pairs(), i);
        }
        assert forall|u: int| #[trigger] self@.ids.contains_key(u)
            implies 0 <= self@.ids[u] <= self@.largest by {
            lemma_contains(self.id_pairs(), u);
            let i = choose|i: int| 0 <= i < self.id_pairs().len() && self.id_pairs()[i].0 == u;
            lemma_index(self.id_pairs(), i);
        }
    }

    /// The highest slot handed out so far.
    pub fn largest_slot(&self) -> (r: usize)
        ensures
            r == self@.largest,
    {
        self.largest
    }

    /// A fresh map with no keys, no users, no overrides, and the given
    /// metadata.
    pub fn new(init_m: M) -> (r: SRMap<M>)
        ensures
            r.wf(),
            r@.gmap == Map::<Seq<char>, Seq<Seq<char>>>::empty(),
            r@.bmap == Map::<Seq<char>, Seq<bool>>::empty(),
            r@.umap == Map::<(int, Seq<char>), Seq<Seq<char>>>::empty(),
            r@.ids == Map::<int, int>::empty(),
            r@.largest == 0,
            r@.meta == init_m,
    {
        let r = SRMap {
            g_map: Vec::new(),
            b_map: Vec::new(),
            u_map: Vec::new(),
            id_store: Vec::new(),
            largest: 0,
            meta: init_m,
        };
        proof {
            assert(r.g_pairs() =~= Seq::empty());
            assert(r.b_pairs() =~= Seq::empty());
            assert(r.u_pairs() =~= Seq::empty());
            assert(r.id_pairs() =~= Seq::empty());
        }
        r
    }

    /// What `uid` sees for `k`, per the resolution order: the private
    /// override first, else the global value if the user's bit is set.
    pub fn get<'a>(&'a self, k: &String, uid: usize) -> (r: Option<&'a Vec<String>>)
        requires
            self.wf(),
        ensures
            match r {
                Some(vs) => self@.spec_get(k@, uid as int) == Some(vs.deep_view()),
                None => self@.spec_get(k@, uid as int) is None,
            },
    {
        proof {
            self.lemma_b_unique();
        }
        match find_u(&self.u_map, uid, k) {
            Some(j) => {
                proof {
                    lemma_index(self.u_pairs(), j as int);
                }
                Some(&self.u_map[j].1)
            },
            None => {
                proof {
                    lemma_contains(self.u_pairs(), (uid as int, k@));
                }
                match find_g(&self.g_map, k) {
                    None => {
                        proof {
                            lemma_contains(self.g_pairs(), k@);
                        }
                        None
                    },
                    Some(i) => {
                        proof {
                            lemma_index(self.g_pairs(), i as int);
                            lemma_index(self.b_pairs(), i as int);
                        }
                        match find_id(&self.id_store, uid) {
                            None => {
                                proof {
                                    lemma_contains(self.id_pairs(), uid as int);
                                }
                                None
                            },
                            Some(ui) => {
                                proof {
                                    lemma_index(self.id_pairs(), ui as int);
                                }
                                let slot = self.id_store[ui].1;
                                if self.b_map[i].1[slot] {
                                    Some(&self.g_map[i].1)
                                } else {
                                    None
                                }
                            },
                        }
                    },
                }
            },
        }
    }
    /// Insert `v` as user `uid`'s value-set for `k`, sharing the global
    /// copy when the values agree and diverging privately when they do
    /// not. Always reports success: a divergent value is not an error,
    /// it simply lands in the override map.
    pub fn insert(&mut self, k: String, v: Vec<String>, uid: usize) -> (r: bool)
        requires
            old(self).wf(),
        ensures
            final(self).wf(),
            final(self)@ == old(self)@.spec_insert(k@, v.deep_view(), uid as int),
            r,
    {
        proof {
            old(self).lemma_b_unique();
        }
        match find_g(&self.g_map, &k) {
            Some(i) => {
                proof {
                    lemma_index(old(self).g_pairs(), i as int);
                    lemma_index(old(self).b_pairs(), i as int);
                }
                if str_vecs_eq(&self.g_map[i].1, &v) {
                    match find_id(&self.id_store, uid) {
                        Some(ui) => {
                            proof {
                                lemma_index(old(self).id_pairs(), ui as int);
                            }
                            let slot = self.id_store[ui].1;
                            self.b_map[i].1[slot] = true;
                            proof {
                                let bp0 = old(self).b_pairs();
                                let nb = bp0[i as int].1.update(slot as int, true);
                                assert(self.b_pairs() =~= bp0.update(i as int, (bp0[i as int].0, nb)));
                                lemma_update(bp0, i as int, nb);
                                assert(self@ =~= old(self)@.spec_insert(k@, v.deep_view(), uid as int));
                            }
                        },
                        None => {
                            proof {
                                lemma_contains(old(self).id_pairs(), uid as int);
                                assert(self@ =~= old(self)@.spec_insert(k@, v.deep_view(), uid as int));
                            }
                        },
                    }
                } else {
                    match find_u(&self.u_map, uid, &k) {
                        Some(j) => {
                            proof {
                                lemma_index(old(self).u_pairs(), j as int);
                            }
                            self.u_map[j] = ((uid, k), v);
                            proof {
                                let up0 = old(self).u_pairs();
                                assert(self.u_pairs() =~= up0.update(
                                    j as int,
                                    (up0[j as int].0, v.deep_view()),
                                ));
                                lemma_update(up0, j as int, v.deep_view());
                                assert(self@ =~= old(self)@.spec_insert(k@, v.deep_view(), uid as int));
                            }
                        },
                        None => {
                            self.u_map.push(((uid, k), v));
                            proof {
                                let up0 = old(self).u_pairs();
                                assert(self.u_pairs() =~= up0.push(((uid as int, k@), v.deep_view())));
                                lemma_push(up0, (uid as int, k@), v.deep_view());
                                assert forall|j: int| 0 <= j < up0.len()
                                    implies up0[j].0 != (uid as int, k@) by {
                                    assert(!(old(self).u_map@[j].0.0 == uid
                                        && old(self).u_map@[j].0.1@ == k@));
                                }
                                assert(self@ =~= old(self)@.spec_insert(k@, v.deep_view(), uid as int));
                            }
                        },
                    }
                }
            },
            None => {
                proof {
                    lemma_contains(old(self).g_pairs(), k@);
                }
                let slot: usize;
                match find_id(&self.id_store, uid) {
                    Some(ui) => {
                        proof {
                            lemma_index(old(self).id_pairs(), ui as int);
                        }
                        slot = self.id_store[ui].1;
                        proof {
                            assert(old(self)@.ids.insert(uid as int, slot as int)
                                =~= old(self)@.ids);
                        }
                    },
                    None => {
                        proof {
                            lemma_contains(old(self).id_pairs(), uid as int);
                        }
                        slot = 0;
                        self.id_store.push((uid, 0));
                        proof {
                            let ip0 = old(self).id_pairs();
                            assert(self.id_pairs() =~= ip0.push((uid as int, 0)));
                            lemma_push(ip0, uid as int, 0);
                            assert forall|j: int| 0 <= j < ip0.len()
                                implies ip0[j].0 != uid as int by {
                                assert(old(self).id_store@[j].0 != uid);
                            }
                        }
                    },
                }
                let mut bits: Vec<bool> = Vec::new();
                let n = self.largest + 1;
                let mut x: usize = 0;
                while x < n
                    invariant
                        x <= n,
                        bits@.len() == x,
                        forall|t: int| 0 <= t < x ==> bits@[t] == (t == slot as int),
                    decreases n - x,
                {
                    bits.push(x == slot);
                    x = x + 1;
                }
                proof {
                    assert(bits@ =~= Seq::new(
                        (old(self).largest + 1) as nat,
                        |t: int| t == slot as int,
                    ));
                }
                let k2 = k.clone();
                self.g_map.push((k, v));
                self.b_map.push((k2, bits));
                proof {
                    let gp0 = old(self).g_pairs();
                    let bp0 = old(self).b_pairs();
                    assert(self.g_pairs() =~= gp0.push((k@, v.deep_view())));
                    assert(self.b_pairs() =~= bp0.push((k@, bits@)));
                    lemma_push(gp0, k@, v.deep_view());
                    lemma_push(bp0, k@, bits@);
                    assert forall|j: int| 0 <= j < gp0.len() implies gp0[j].0 != k@ by {
                        assert(old(self).g_map@[j].0@ != k@);
                    }
                    assert(has_true(bits@)) by {
                        assert(bits@[slot as int]);
                    }
                    assert(self@ =~= old(self)@.spec_insert(k@, v.deep_view(), uid as int));
                }
            },
        }
        true
    }

    /// Remove user `uid`'s access to `k`: any private override goes away,
    /// the user's visibility bit is cleared, and the global entry is
    /// dropped once nobody sees it. A no-op on an unknown key or an
    /// unregistered user.
    pub fn remove(&mut self, k: String, uid: usize)
        requires
            old(self).wf(),
        ensures
            final(self).wf(),
            final(self)@ == old(self)@.spec_remove(k@, uid as int),
    {
        proof {
            old(self).lemma_b_unique();
        }
        match find_u(&self.u_map, uid, &k) {
            Some(j) => {
                proof {
                    lemma_index(old(self).u_pairs(), j as int);
                }
                self.u_map.remove(j);
                proof {
                    assert(self.u_pairs() =~= old(self).u_pairs().remove(j as int));
                    lemma_remove(old(self).u_pairs(), j as int);
                }
            },
            None => {
                proof {
                    lemma_contains(old(self).u_pairs(), (uid as int, k@));
                    assert(old(self)@.umap.remove((uid as int, k@)) =~= old(self)@.umap);
                }
            },
        }
        match find_g(&self.g_map, &k) {
            Some(i) => {
                proof {
                    lemma_index(old(self).g_pairs(), i as int);
                    lemma_index(old(self).b_pairs(), i as int);
                }
                match find_id(&self.id_store, uid) {
                    Some(ui) => {
                        proof {
                            lemma_index(old(self).id_pairs(), ui as int);
                        }
                        let slot = self.id_store[ui].1;
                        let ghost bp0 = old(self).b_pairs();
                        let ghost nb = bp0[i as int].1.update(slot as int, false);
                        self.b_map[i].1[slot] = false;
                        let still = any_true(&self.b_map[i].1);
                        if still {
                            proof {
                                assert(self.b_pairs() =~= bp0.update(
                                    i as int,
                                    (bp0[i as int].0, nb),
                                ));
                                lemma_update(bp0, i as int, nb);
                                assert(final(self)@ =~= old(self)@.spec_remove(k@, uid as int));
                            }
                        } else {
                            self.g_map.remove(i);
                            self.b_map.remove(i);
                            proof {
                                assert(self.g_pairs() =~= old(self).g_pairs().remove(i as int));
                                assert(self.b_pairs() =~= bp0.remove(i as int));
                                lemma_remove(old(self).g_pairs(), i as int);
                                lemma_remove(bp0, i as int);
                                assert(final(self)@ =~= old(self)@.spec_remove(k@, uid as int));
                            }
                        }
                    },
                    None => {
                        proof {
                            lemma_contains(old(self).id_pairs(), uid as int);
                            assert(final(self)@ =~= old(self)@.spec_remove(k@, uid as int));
                        }
                    },
                }
            },
            None => {
                proof {
                    lemma_contains(old(self).g_pairs(), k@);
                    assert(final(self)@ =~= old(self)@.spec_remove(k@, uid as int));
                }
            },
        }
    }

    /// Register `uid` on the next slot. Every existing key's bitmap grows
    /// one cleared bit: the new user sees nothing until an insert grants
    /// visibility. Returns the allocated slot index.
    pub fn add_user(&mut self, uid: usize) -> (slot: usize)
        requires
            old(self).wf(),
            old(self)@.largest + 1 < usize::MAX,
        ensures
            final(self).wf(),
            final(self)@ == old(self)@.spec_add_user(uid as int),
            slot == old(self)@.largest + 1,
    {
        proof {
            old(self).lemma_b_unique();
        }
        self.largest = self.largest + 1;
        let new_slot = self.largest;
        match find_id(&self.id_store, uid) {
            Some(ui) => {
                proof {
                    lemma_index(old(self).id_pairs(), ui as int);
                }
                self.id_store[ui] = (uid, new_slot);
                proof {
                    let ip0 = old(self).id_pairs();
                    assert(self.id_pairs() =~= ip0.update(ui as int, (uid as int, new_slot as int)));
                    lemma_update(ip0, ui as int, new_slot as int);
                }
            },
            None => {
                proof {
                    lemma_contains(old(self).id_pairs(), uid as int);
                }
                self.id_store.push((uid, new_slot));
                proof {
                    let ip0 = old(self).id_pairs();
                    assert(self.id_pairs() =~= ip0.push((uid as int, new_slot as int)));
                    lemma_push(ip0, uid as int, new_slot as int);
                    assert forall|j: int| 0 <= j < ip0.len() implies ip0[j].0 != uid as int by {
                        assert(old(self).id_store@[j].0 != uid);
                    }
                }
            },
        }
        let ghost mid = *self;
        let mut i: usize = 0;
        while i < self.b_map.len()
            invariant
                i <= self.b_map@.len(),
                self.g_map == mid.g_map,
                self.u_map == mid.u_map,
                self.id_store == mid.id_store,
                self.largest == mid.largest,
                self.meta == mid.meta,
                self.b_map@.len() == mid.b_map@.len(),
                forall|j: int| 0 <= j < i ==> (#[trigger] self.b_map@[j]).0 == mid.b_map@[j].0
                    && self.b_map@[j].1@ == mid.b_map@[j].1@.push(false),
                forall|j: int| i <= j < self.b_map@.len()
                    ==> (#[trigger] self.b_map@[j]) == mid.b_map@[j],
            decreases self.b_map@.len() - i,
        {
            self.b_map[i].1.push(false);
            i = i + 1;
        }
        proof {
            let bp0 = old(self).b_pairs();
            let bp1 = self.b_pairs();
            assert(mid.b_map == old(self).b_map);
            old(self).lemma_b_unique_weak(bp0, bp1);
            lemma_aligned_dom(bp0, bp1);
            assert forall|k: Seq<char>| #[trigger] list_to_map(bp1).contains_key(k)
                implies list_to_map(bp1)[k] == old(self)@.bmap[k].push(false) by {
                lemma_contains(bp1, k);
                let j = choose|j: int| 0 <= j < bp1.len() && bp1[j].0 == k;
                lemma_index(bp1, j);
                lemma_index(bp0, j);
            }
            assert(final(self)@.bmap =~= old(self)@.spec_add_user(uid as int).bmap);
            assert(final(self)@ =~= old(self)@.spec_add_user(uid as int));
            assert forall|j: int| 0 <= j < self.b_map@.len()
                implies has_true((#[trigger] self.b_map@[j]).1@) by {
                assert(has_true(old(self).b_map@[j].1@));
                let t = choose|t: int|
                    0 <= t < old(self).b_map@[j].1@.len() && old(self).b_map@[j].1@[t];
                assert(self.b_map@[j].1@[t]);
            }
        }
        new_slot
    }

    /// The keys of a bitmap list that carries the same keys as the
    /// well-formed map's bitmap table, entry by entry, are distinct.
    proof fn lemma_b_unique_weak(
        self,
        bp0: Seq<(Seq<char>, Seq<bool>)>,
        bp1: Seq<(Seq<char>, Seq<bool>)>,
    )
        requires
            self.wf(),
            bp0 == self.b_pairs(),
            bp1.len() == bp0.len(),
            forall|j: int| 0 <= j < bp1.len() ==> (#[trigger] bp1[j]).0 == bp0[j].0,
        ensures
            unique_keys(bp1),
    {
        self.lemma_b_unique();
    }

    /// Retire user `uid`: clear its bit in every bitmap and drop the
    /// global entries nobody sees any more. The slot record stays (slot
    /// indices are never reused) and private overrides of the user are
    /// kept, as divergent per-user state.
    pub fn remove_user(&mut self, uid: usize)
        requires
            old(self).wf(),
        ensures
            final(self).wf(),
            final(self)@ == old(self)@.spec_remove_user(uid as int),
    {
        proof {
            old(self).lemma_b_unique();
        }
        match find_id(&self.id_store, uid) {
            None => {
                proof {
                    lemma_contains(old(self).id_pairs(), uid as int);
                    assert(final(self)@ =~= old(self)@.spec_remove_user(uid as int));
                }
            },
            Some(ui) => {
                proof {
                    lemma_index(old(self).id_pairs(), ui as int);
                }
                let slot = self.id_store[ui].1;
                let ghost s = slot as int;
                let ghost gp0 = old(self).g_pairs();
                let ghost bp0 = old(self).b_pairs();
                let mut new_g: Vec<(String, Vec<String>)> = Vec::new();
                let mut new_b: Vec<(String, Vec<bool>)> = Vec::new();
                let ghost mut src: Seq<int> = Seq::empty();
                let mut i: usize = 0;
                while i < self.g_map.len()
                    invariant
                        *self == *old(self),
                        old(self).wf(),
                        slot <= old(self).largest,
                        s == slot as int,
                        gp0 == old(self).g_pairs(),
                        bp0 == old(self).b_pairs(),
                        i <= self.g_map@.len(),
                        new_g@.len() == new_b@.len(),
                        src.len() == new_g@.len(),
                        forall|t: int| 0 <= t < src.len() ==> 0 <= #[trigger] src[t] < i,
                        forall|t: int, t2: int| 0 <= t < t2 < src.len() ==> src[t] < src[t2],
                        forall|t: int| 0 <= t < src.len()
                            ==> g_view(new_g@)[t] == gp0[#[trigger] src[t]]
                                && b_view(new_b@)[t]
                                    == (bp0[src[t]].0, bp0[src[t]].1.update(s, false))
                                && has_true(bp0[src[t]].1.update(s, false)),
                        forall|j: int| 0 <= j < i && has_true((#[trigger] bp0[j]).1.update(s, false))
                            ==> exists|t: int| 0 <= t < src.len() && (#[trigger] src[t]) == j,
                    decreases self.g_map@.len() - i,
                {
                    let ghost ng_before = new_g@;
                    let ghost nb_before = new_b@;
                    let mut bits = clone_bits(&self.b_map[i].1);
                    bits[slot] = false;
                    proof {
                        assert(bits@ == bp0[i as int].1.update(s, false));
                    }
                    if any_true(&bits) {
                        let key = self.g_map[i].0.clone();
                        let vals = clone_strs(&self.g_map[i].1);
                        let bkey = self.b_map[i].0.clone();
                        new_g.push((key, vals));
                        new_b.push((bkey, bits));
                        proof {
                            let src_before = src;
                            src = src.push(i as int);
                            assert(vals.deep_view() =~= self.g_map@[i as int].1.deep_view());
                            assert(g_view(new_g@) =~= g_view(ng_before).push(
                                (key@, vals.deep_view()),
                            ));
                            assert(b_view(new_b@) =~= b_view(nb_before).push((bkey@, bits@)));
                            assert(g_view(new_g@)[src.len() - 1] == gp0[i as int]);
                            assert(b_view(new_b@)[src.len() - 1]
                                == (bp0[i as int].0, bp0[i as int].1.update(s, false)));
                            assert(src[src.len() - 1] == i as int);
                            assert forall|j: int|
                                0 <= j < i + 1 && has_true((#[trigger] bp0[j]).1.update(s, false))
                                implies exists|t: int|
                                    0 <= t < src.len() && (#[trigger] src[t]) == j by {
                                if j == i as int {
                                    assert(src[src.len() - 1] == j);
                                } else {
                                    let t = choose|t: int|
                                        0 <= t < src_before.len() && (#[trigger] src_before[t]) == j;
                                    assert(src[t] == j);
                                }
                            }
                        }
                    }
                    i = i + 1;
                }
                self.g_map = new_g;
                self.b_map = new_b;
                proof {
                    let gp1 = self.g_pairs();
                    let bp1 = self.b_pairs();
                    let m0 = old(self)@;
                    let keep = |k: Seq<char>| m0.gmap.contains_key(k) && m0.bmap.contains_key(k)
                        && has_true(m0.bmap[k].update(s, false));
                    assert forall|t: int, t2: int| 0 <= t < t2 < gp1.len()
                        implies (#[trigger] gp1[t]).0 != (#[trigger] gp1[t2]).0 by {
                        assert(gp0[src[t]].0 != gp0[src[t2]].0);
                    }
                    assert forall|t: int| 0 <= t < bp1.len()
                        implies (#[trigger] bp1[t]).0 == gp1[t].0 by {
                        assert(bp0[src[t]].0 == gp0[src[t]].0);
                    }
                    assert(unique_keys(gp1));
                    assert forall|k: Seq<char>|
                        list_to_map(gp1).contains_key(k) <==> keep(k) by {
                        lemma_contains(gp1, k);
                        if list_to_map(gp1).contains_key(k) {
                            let t = choose|t: int| 0 <= t < gp1.len() && gp1[t].0 == k;
                            lemma_index(gp0, src[t]);
                            lemma_index(bp0, src[t]);
                            assert(keep(k));
                        }
                        if keep(k) {
                            lemma_contains(gp0, k);
                            let j = choose|j: int| 0 <= j < gp0.len() && gp0[j].0 == k;
                            lemma_index(gp0, j);
                            lemma_index(bp0, j);
                            assert(has_true(bp0[j].1.update(s, false)));
                            let t = choose|t: int| 0 <= t < src.len() && src[t] == j;
                            assert(gp1[t].0 == k);
                        }
                    }
                    assert forall|k: Seq<char>| #[trigger] list_to_map(gp1).contains_key(k)
                        implies list_to_map(gp1)[k] == m0.gmap[k]
                            && list_to_map(bp1).contains_key(k)
                            && list_to_map(bp1)[k] == m0.bmap[k].update(s, false) by {
                        lemma_contains(gp1, k);
                        let t = choose|t: int| 0 <= t < gp1.len() && gp1[t].0 == k;
                        lemma_index(gp1, t);
                        old(self).lemma_b_unique();
                        assert forall|a: int, a2: int| 0 <= a < a2 < bp1.len()
                            implies (#[trigger] bp1[a]).0 != (#[trigger] bp1[a2]).0 by {
                            assert(gp1[a].0 != gp1[a2].0);
                        }
                        lemma_index(bp1, t);
                        lemma_index(gp0, src[t]);
                        lemma_index(bp0, src[t]);
                    }
                    assert forall|k: Seq<char>| #[trigger] list_to_map(bp1).contains_key(k)
                        implies list_to_map(gp1).contains_key(k) by {
                        lemma_contains(bp1, k);
                        let t = choose|t: int| 0 <= t < bp1.len() && bp1[t].0 == k;
                        lemma_contains(gp1, k);
                        assert(gp1[t].0 == k);
                    }
                    assert(final(self)@.gmap =~= old(self)@.spec_remove_user(uid as int).gmap);
                    assert(final(self)@.bmap =~= old(self)@.spec_remove_user(uid as int).bmap);
                    assert(final(self)@ =~= old(self)@.spec_remove_user(uid as int));
                    assert forall|t: int| 0 <= t < self.b_map@.len()
                        implies (#[trigger] self.b_map@[t]).1@.len() == self.largest + 1
                            && has_true(self.b_map@[t].1@) by {
                        assert(bp1[t].1 == bp0[src[t]].1.update(s, false));
                        assert(has_true(bp0[src[t]].1.update(s, false)));
                        assert(old(self).b_map@[src[t]].1@.len() == old(self).largest + 1);
                        assert(bp0[src[t]].1.len() == old(self).largest + 1);
                    }
                    assert forall|t: int| 0 <= t < self.g_map@.len()
                        implies (#[trigger] self.b_map@[t]).0@ == self.g_map@[t].0@ by {
                        assert(bp1[t].0 == gp1[t].0);
                    }
                }
            },
        }
    }
}

/// A copy of a bitmap.
pub(crate) fn clone_bits(v: &Vec<bool>) -> (r: Vec<bool>)
    ensures
        r@ == v@,
{
    let r = v.clone();
    proof {
        assert(r@ =~= v@);
    }
    r
}

/// A copy of a value-set.
pub(crate) fn clone_strs(v: &Vec<String>) -> (r: Vec<String>)
    ensures
        r@ == v@,
{
    let r = v.clone();
    proof {
        assert(r@ =~= v@);
    }
    r
}

/// Index of the entry for key `k` in the global map, if any.
pub(crate) fn find_g(list: &Vec<(String, Vec<String>)>, k: &String) -> (r: Option<usize>)
    ensures
        match r {
            Some(i) => i < list@.len() && list@[i as int].0@ == k@,
            None => forall|j: int| 0 <= j < list@.len() ==> (#[trigger] list@[j]).0@ != k@,
        },
{
    let mut i: usize = 0;
    while i < list.len()
        invariant
            i <= list@.len(),
            forall|j: int| 0 <= j < i ==> (#[trigger] list@[j]).0@ != k@,
        decreases list@.len() - i,
    {
        if list[i].0 == *k {
            return Some(i);
        }
        i = i + 1;
    }
    None
}

/// Index of the entry for `(uid, k)` in the override map, if any.
fn find_u(list: &Vec<((usize, String), Vec<String>)>, uid: usize, k: &String) -> (r: Option<usize>)
    ensures
        match r {
            Some(i) => i < list@.len() && list@[i as int].0.0 == uid
                && list@[i as int].0.1@ == k@,
            None => forall|j: int| 0 <= j < list@.len()
                ==> !((#[trigger] list@[j]).0.0 == uid && list@[j].0.1@ == k@),
        },
{
    let mut i: usize = 0;
    while i < list.len()
        invariant
            i <= list@.len(),
            forall|j: int| 0 <= j < i
                ==> !((#[trigger] list@[j]).0.0 == uid && list@[j].0.1@ == k@),
        decreases list@.len() - i,
    {
        if list[i].0.0 == uid && list[i].0.1 == *k {
            return Some(i);
        }
        i = i + 1;
    }
    None
}

/// Index of the entry for user `uid` in the slot table, if any.
fn find_id(list: &Vec<(usize, usize)>, uid: usize) -> (r: Option<usize>)
    ensures
        match r {
            Some(i) => i < list@.len() && list@[i as int].0 == uid,
            None => forall|j: int| 0 <= j < list@.len() ==> (#[trigger] list@[j]).0 != uid,
        },
{
    let mut i: usize = 0;
    while i < list.len()
        invariant
            i <= list@.len(),
            forall|j: int| 0 <= j < i ==> (#[trigger] list@[j]).0 != uid,
        decreases list@.len() - i,
    {
        if list[i].0 == uid {
            return Some(i);
        }
        i = i + 1;
    }
    None
}

/// Element-wise equality of two value-sets.
fn str_vecs_eq(a: &Vec<String>, b: &Vec<String>) -> (r: bool)
    ensures
        r == (a.deep_view() == b.deep_view()),
{
    if a.len() != b.len() {
        assert(a.deep_view().len() != b.deep_view().len());
        return false;
    }
    let mut i: usize = 0;
    while i < a.len()
        invariant
            i <= a@.len(),
            a@.len() == b@.len(),
            forall|j: int| 0 <= j < i ==> a.deep_view()[j] == b.deep_view()[j],
        decreases a@.len() - i,
    {
        if !(a[i] == b[i]) {
            assert(a.deep_view()[i as int] != b.deep_view()[i as int]);
            return false;
        }
        i = i + 1;
    }
    proof {
        assert(a.deep_view() =~= b.deep_view());
    }
    true
}

/// Whether any bit in the bitmap is set.
fn any_true(bits: &Vec<bool>) -> (r: bool)
    ensures
        r == has_true(bits@),
{
    let mut i: usize = 0;
    while i < bits.len()
        invariant
            i <= bits@.len(),
            forall|j: int| 0 <= j < i ==> !bits@[j],
        decreases bits@.len() - i,
    {
        if bits[i] {
            return true;
        }
        i = i + 1;
    }
    false
}

impl<M: Copy> View for SRMap<M> {
    type V = SRMapView<M>;

    open spec fn view(&self) -> SRMapView<M> {
        SRMapView {
            gmap: list_to_map(self.g_pairs()),
            bmap: list_to_map(self.b_pairs()),
            umap: list_to_map(self.u_pairs()),
            ids: list_to_map(self.id_pairs()),
            largest: self.largest as int,
            meta: self.meta,
        }
    }
}

} // verus!
