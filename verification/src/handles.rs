//! Read and write front ends over one shared engine instance.
//!
//! [`construct`] builds one [`SRMap`] behind one reader-writer lock and
//! returns a [`ReadHandle`]/[`WriteHandle`] pair over it. Both are clonable
//! and may be used from concurrent callers; every write operation holds the
//! lock exclusively for its whole duration, every read operation holds it
//! shared, so each call is one atomic application of the engine transition
//! it names to the shared state current at that moment. The lock invariant
//! keeps every stored state well-formed.

use std::sync::Arc;
use vstd::prelude::*;
use vstd::rwlock::{RwLock, RwLockPredicate};

use crate::srmap::{SRMap, SRMapView};

verus! {

/// The lock invariant: only well-formed engine states are stored.
pub struct SRPred;

impl<M: Copy> RwLockPredicate<SRMap<M>> for SRPred {
    open spec fn inv(self, v: SRMap<M>) -> bool {
        v.wf()
    }
}

/// Relies on `alloc::sync::Arc::clone`: the clone is another pointer to the
/// same allocation, so it carries the same value.
#[verifier::external_body]
fn arc_clone<T>(a: &Arc<T>) -> (r: Arc<T>)
    ensures
        r == *a,
{
    Arc::clone(a)
}

/// The one mutating front end over a shared engine instance.
#[derive(Clone)]
pub struct WriteHandle<M: Copy> {
    handle: Arc<RwLock<SRMap<M>, SRPred>>,
}

/// A read-only front end over a shared engine instance.
#[derive(Clone)]
pub struct ReadHandle<M: Copy> {
    pub(crate) inner: Arc<RwLock<SRMap<M>, SRPred>>,
}

/// A write front end over an existing lock-guarded engine instance.
pub fn new_write<M: Copy>(lock: Arc<RwLock<SRMap<M>, SRPred>>) -> (w: WriteHandle<M>)
    ensures
        w.lock() == *lock,
{
    WriteHandle { handle: lock }
}

/// A read front end over an existing lock-guarded engine instance.
pub fn new_read<M: Copy>(store: Arc<RwLock<SRMap<M>, SRPred>>) -> (r: ReadHandle<M>)
    ensures
        r.lock() == *store,
{
    ReadHandle { inner: store }
}

/// Build one engine instance with the given initial metadata behind one
/// shared lock, and return one read and one write front end over it.
pub fn construct<M: Copy>(meta_init: M) -> (handles: (ReadHandle<M>, WriteHandle<M>))
    ensures
        handles.0.lock() == handles.1.lock(),
{
    let map = SRMap::<M>::new(meta_init);
    let lock = RwLock::<SRMap<M>, SRPred>::new(map, Ghost(SRPred));
    let arc = Arc::new(lock);
    let r_handle = new_read(arc);
    let lock2 = r_handle.get_lock();
    let w_handle = new_write(lock2);
    (r_handle, w_handle)
}

impl<M: Copy> WriteHandle<M> {
    /// The lock this handle fronts.
    pub closed spec fn lock(self) -> RwLock<SRMap<M>, SRPred> {
        *self.handle
    }

    /// Replace user `uid`'s value-set for `k` by the one-element set `[v]`,
    /// atomically applying the engine's insert transition (sharing policy
    /// included) to the shared state.
    pub fn insert(&mut self, k: String, v: String, uid: usize)
        ensures
            final(self).lock() == old(self).lock(),
    {
        let mut container: Vec<String> = Vec::new();
        container.push(v);
        let (mut map, wh) = self.handle.acquire_write();
        map.insert(k, container, uid);
        wh.release_write(map);
    }

    /// Replace the value-set of the given key with the given value; this
    /// design resolves replacement through the same insert-with-sharing
    /// transition as [`WriteHandle::insert`].
    pub fn update(&mut self, k: String, v: String, uid: usize)
        ensures
            final(self).lock() == old(self).lock(),
    {
        let mut container: Vec<String> = Vec::new();
        container.push(v);
        let (mut map, wh) = self.handle.acquire_write();
        map.insert(k, container, uid);
        wh.release_write(map);
    }

    /// Atomically apply the engine's remove transition for `(k, uid)` to
    /// the shared state.
    pub fn remove(&mut self, k: String, uid: usize)
        ensures
            final(self).lock() == old(self).lock(),
    {
        let (mut map, wh) = self.handle.acquire_write();
        map.remove(k, uid);
        wh.release_write(map);
    }

    /// Register `uid` on a fresh slot and return it, or `None` in the
    /// degenerate case that the slot space is exhausted (the shared state
    /// is then left unchanged).
    pub fn add_user(&mut self, uid: usize) -> (slot: Option<usize>)
        ensures
            final(self).lock() == old(self).lock(),
    {
        let (mut map, wh) = self.handle.acquire_write();
        if map.largest_slot() < usize::MAX - 1 {
            let slot = map.add_user(uid);
            wh.release_write(map);
            Some(slot)
        } else {
            wh.release_write(map);
            None
        }
    }

    /// Atomically apply the engine's remove-user transition to the shared
    /// state.
    pub fn remove_user(&mut self, uid: usize)
        ensures
            final(self).lock() == old(self).lock(),
    {
        let (mut map, wh) = self.handle.acquire_write();
        map.remove_user(uid);
        wh.release_write(map);
    }

    /// Nothing to flush: every write is applied to the shared state before
    /// its call returns. Kept for interface compatibility.
    pub fn refresh() {
    }

    /// Empty the key for this user; resolved through the engine's remove
    /// transition.
    pub fn empty(&mut self, k: String, uid: usize)
        ensures
            final(self).lock() == old(self).lock(),
    {
        let (mut map, wh) = self.handle.acquire_write();
        map.remove(k, uid);
        wh.release_write(map);
    }

    /// Clear the key for this user; resolved through the engine's remove
    /// transition.
    pub fn clear(&mut self, k: String, uid: usize)
        ensures
            final(self).lock() == old(self).lock(),
    {
        let (mut map, wh) = self.handle.acquire_write();
        map.remove(k, uid);
        wh.release_write(map);
    }

    /// Empty the key for this user; resolved through the engine's remove
    /// transition.
    pub fn empty_at_index(&mut self, k: String, uid: usize)
        ensures
            final(self).lock() == old(self).lock(),
    {
        let (mut map, wh) = self.handle.acquire_write();
        map.remove(k, uid);
        wh.release_write(map);
    }

    /// Apply `then` to the value-set `uid` sees for `key` in some
    /// well-formed shared state, paired with that state's metadata.
    pub fn meta_get_and<T, F: Fn(&[String]) -> T>(&self, key: &String, then: F, uid: usize)
        -> (r: Option<(Option<T>, M)>)
        requires
            forall|vs: &[String]| call_requires(then, (vs,)),
        ensures
            r is Some,
            match r {
                Some((projected, m)) => match projected {
                    Some(t) => exists|st: SRMapView<M>, vs: &[String]|
                        st.wf() && st.meta == m
                            && st.spec_get(key@, uid as int) == Some(vs.deep_view())
                            && call_ensures(then, (vs,), t),
                    None => exists|st: SRMapView<M>|
                        st.wf() && st.meta == m && st.spec_get(key@, uid as int) is None,
                },
                None => true,
            },
    {
        let read_handle = self.handle.acquire_read();
        let map = read_handle.borrow();
        proof {
            map.lemma_wf_view();
        }
        let m = map.meta;
        let projected = match map.get(key, uid) {
            Some(vs) => {
                let slice = vs.as_slice();
                let t = then(slice);
                proof {
                    assert(slice.deep_view() =~= vs.deep_view());
                    assert(exists|st: SRMapView<M>, vs2: &[String]|
                        st.wf() && st.meta == m
                            && st.spec_get(key@, uid as int) == Some(vs2.deep_view())
                            && call_ensures(then, (vs2,), t)) by {
                        assert(map@.wf() && map@.meta == m
                            && map@.spec_get(key@, uid as int) == Some(slice.deep_view())
                            && call_ensures(then, (slice,), t));
                    }
                }
                Some(t)
            },
            None => {
                proof {
                    assert(exists|st: SRMapView<M>|
                        st.wf() && st.meta == m
                            && st.spec_get(key@, uid as int) is None) by {
                        assert(map@.wf() && map@.meta == m
                            && map@.spec_get(key@, uid as int) is None);
                    }
                }
                None
            },
        };
        let r = Some((projected, m));
        read_handle.release_read();
        r
    }

    /// Whether the global map of the current shared state has no keys.
    pub fn is_empty(&self) -> (r: bool)
        ensures
            exists|st: SRMapView<M>| #[trigger] st.wf() && (r <==> st.gmap.dom() =~= Set::empty()),
    {
        let read_handle = self.handle.acquire_read();
        let map = read_handle.borrow();
        proof {
            map.lemma_wf_view();
        }
        let r = map.g_map.len() == 0;
        proof {
            let st = map@;
            crate::assoc::lemma_dom_len(map.g_pairs());
            if map.g_pairs().len() == 0 {
                assert(st.gmap.dom() =~= Set::empty());
            } else {
                assert(!(st.gmap.dom() =~= Set::empty())) by {
                    crate::assoc::lemma_index(map.g_pairs(), 0);
                }
            }
            assert(st.wf() && (r <==> st.gmap.dom() =~= Set::empty()));
        }
        read_handle.release_read();
        r
    }
}

impl<M: Copy> ReadHandle<M> {
    /// The lock this handle fronts.
    pub closed spec fn lock(self) -> RwLock<SRMap<M>, SRPred> {
        *self.inner
    }

    /// A copy of the global map of the current shared state, for
    /// inspection.
    pub fn g_map_diagnostics(&mut self) -> (r: Vec<(String, Vec<String>)>)
        ensures
            exists|st: SRMapView<M>| #[trigger] st.wf()
                && crate::assoc::list_to_map(crate::srmap::g_view(r@)) == st.gmap,
    {
        let read_handle = self.inner.acquire_read();
        let map = read_handle.borrow();
        proof {
            map.lemma_wf_view();
        }
        let mut r: Vec<(String, Vec<String>)> = Vec::new();
        let mut i: usize = 0;
        while i < map.g_map.len()
            invariant
                i <= map.g_map@.len(),
                crate::srmap::g_view(r@) == map.g_pairs().take(i as int),
            decreases map.g_map@.len() - i,
        {
            let ghost before = r@;
            r.push((map.g_map[i].0.clone(), crate::srmap::clone_strs(&map.g_map[i].1)));
            proof {
                assert(crate::srmap::g_view(r@) =~= crate::srmap::g_view(before).push(
                    map.g_pairs()[i as int],
                ));
                assert(crate::srmap::g_view(r@) =~= map.g_pairs().take(i + 1));
            }
            i = i + 1;
        }
        proof {
            assert(map.g_pairs().take(i as int) =~= map.g_pairs());
            assert(map@.wf() && crate::assoc::list_to_map(crate::srmap::g_view(r@)) == map@.gmap);
        }
        read_handle.release_read();
        r
    }

    /// A copy of the bitmap table of the current shared state, for
    /// inspection.
    pub fn b_map_diagnostics(&mut self) -> (r: Vec<(String, Vec<bool>)>)
        ensures
            exists|st: SRMapView<M>| #[trigger] st.wf()
                && crate::assoc::list_to_map(crate::srmap::b_view(r@)) == st.bmap,
    {
        let read_handle = self.inner.acquire_read();
        let map = read_handle.borrow();
        proof {
            map.lemma_wf_view();
        }
        let mut r: Vec<(String, Vec<bool>)> = Vec::new();
        let mut i: usize = 0;
        while i < map.b_map.len()
            invariant
                i <= map.b_map@.len(),
                crate::srmap::b_view(r@) == map.b_pairs().take(i as int),
            decreases map.b_map@.len() - i,
        {
            let ghost before = r@;
            r.push((map.b_map[i].0.clone(), crate::srmap::clone_bits(&map.b_map[i].1)));
            proof {
                assert(crate::srmap::b_view(r@) =~= crate::srmap::b_view(before).push(
                    map.b_pairs()[i as int],
                ));
                assert(crate::srmap::b_view(r@) =~= map.b_pairs().take(i + 1));
            }
            i = i + 1;
        }
        proof {
            assert(map.b_pairs().take(i as int) =~= map.b_pairs());
            assert(map@.wf() && crate::assoc::list_to_map(crate::srmap::b_view(r@)) == map@.bmap);
        }
        read_handle.release_read();
        r
    }

    /// A copy of the override map of the current shared state, for
    /// inspection.
    pub fn u_map_diagnostics(&mut self) -> (r: Vec<((usize, String), Vec<String>)>)
        ensures
            exists|st: SRMapView<M>| #[trigger] st.wf()
                && crate::assoc::list_to_map(crate::srmap::u_view(r@)) == st.umap,
    {
        let read_handle = self.inner.acquire_read();
        let map = read_handle.borrow();
        proof {
            map.lemma_wf_view();
        }
        let mut r: Vec<((usize, String), Vec<String>)> = Vec::new();
        let mut i: usize = 0;
        while i < map.u_map.len()
            invariant
                i <= map.u_map@.len(),
                crate::srmap::u_view(r@) == map.u_pairs().take(i as int),
            decreases map.u_map@.len() - i,
        {
            let ghost before = r@;
            let uid = map.u_map[i].0.0;
            r.push((
                (uid, map.u_map[i].0.1.clone()),
                crate::srmap::clone_strs(&map.u_map[i].1),
            ));
            proof {
                assert(crate::srmap::u_view(r@) =~= crate::srmap::u_view(before).push(
                    map.u_pairs()[i as int],
                ));
                assert(crate::srmap::u_view(r@) =~= map.u_pairs().take(i + 1));
            }
            i = i + 1;
        }
        proof {
            assert(map.u_pairs().take(i as int) =~= map.u_pairs());
            assert(map@.wf() && crate::assoc::list_to_map(crate::srmap::u_view(r@)) == map@.umap);
        }
        read_handle.release_read();
        r
    }

    /// A copy of the slot table of the current shared state, for
    /// inspection.
    pub fn id_store_diagnostics(&mut self) -> (r: Vec<(usize, usize)>)
        ensures
            exists|st: SRMapView<M>| #[trigger] st.wf()
                && crate::assoc::list_to_map(crate::srmap::id_view(r@)) == st.ids,
    {
        let read_handle = self.inner.acquire_read();
        let map = read_handle.borrow();
        proof {
            map.lemma_wf_view();
        }
        let mut r: Vec<(usize, usize)> = Vec::new();
        let mut i: usize = 0;
        while i < map.id_store.len()
            invariant
                i <= map.id_store@.len(),
                crate::srmap::id_view(r@) == map.id_pairs().take(i as int),
            decreases map.id_store@.len() - i,
        {
            let ghost before = r@;
            r.push((map.id_store[i].0, map.id_store[i].1));
            proof {
                assert(crate::srmap::id_view(r@) =~= crate::srmap::id_view(before).push(
                    map.id_pairs()[i as int],
                ));
                assert(crate::srmap::id_view(r@) =~= map.id_pairs().take(i + 1));
            }
            i = i + 1;
        }
        proof {
            assert(map.id_pairs().take(i as int) =~= map.id_pairs());
            assert(map@.wf() && crate::assoc::list_to_map(crate::srmap::id_view(r@)) == map@.ids);
        }
        read_handle.release_read();
        r
    }

    /// The metadata of the current shared state.
    pub fn meta(&self) -> (r: Option<M>)
        ensures
            r is Some,
            exists|st: SRMapView<M>| #[trigger] st.wf() && r == Some(st.meta),
    {
        let read_handle = self.inner.acquire_read();
        let map = read_handle.borrow();
        proof {
            map.lemma_wf_view();
        }
        let r = Some(map.meta);
        proof {
            assert(map@.wf() && r == Some(map@.meta));
        }
        read_handle.release_read();
        r
    }

    /// Another handle on the same lock, for building further front ends.
    pub fn get_lock(&self) -> (r: Arc<RwLock<SRMap<M>, SRPred>>)
        ensures
            *r == self.lock(),
    {
        arc_clone(&self.inner)
    }

    /// The number of keys in the global map of the current shared state.
    pub fn len(&self) -> (r: usize)
        ensures
            exists|st: SRMapView<M>| #[trigger] st.wf() && r == st.gmap.dom().len(),
    {
        let read_handle = self.inner.acquire_read();
        let map = read_handle.borrow();
        proof {
            map.lemma_wf_view();
        }
        let r = map.g_map.len();
        proof {
            crate::assoc::lemma_dom_len(map.g_pairs());
            assert(map@.wf() && r == map@.gmap.dom().len());
        }
        read_handle.release_read();
        r
    }

    /// Whether the global map of the current shared state has no keys.
    pub fn is_empty(&self) -> (r: bool)
        ensures
            exists|st: SRMapView<M>| #[trigger] st.wf() && (r <==> st.gmap.dom() =~= Set::empty()),
    {
        let read_handle = self.inner.acquire_read();
        let map = read_handle.borrow();
        proof {
            map.lemma_wf_view();
        }
        let r = map.g_map.len() == 0;
        proof {
            let st = map@;
            crate::assoc::lemma_dom_len(map.g_pairs());
            if map.g_pairs().len() == 0 {
                assert(st.gmap.dom() =~= Set::empty());
            } else {
                assert(!(st.gmap.dom() =~= Set::empty())) by {
                    crate::assoc::lemma_index(map.g_pairs(), 0);
                }
            }
            assert(st.wf() && (r <==> st.gmap.dom() =~= Set::empty()));
        }
        read_handle.release_read();
        r
    }

    /// Apply `then` to the value-set `uid` sees for `key` in some
    /// well-formed shared state, without copying the raw value-set out of
    /// the lock scope.
    pub fn get_and<T, F: Fn(&[String]) -> T>(&self, key: &String, then: F, uid: usize)
        -> (r: Option<T>)
        requires
            forall|vs: &[String]| call_requires(then, (vs,)),
        ensures
            r matches Some(t) ==> exists|st: SRMapView<M>, vs: &[String]|
                st.wf() && st.spec_get(key@, uid as int) == Some(vs.deep_view())
                    && call_ensures(then, (vs,), t),
            r is None ==> exists|st: SRMapView<M>|
                st.wf() && st.spec_get(key@, uid as int) is None,
    {
        let read_handle = self.inner.acquire_read();
        let map = read_handle.borrow();
        proof {
            map.lemma_wf_view();
        }
        let r = match map.get(key, uid) {
            Some(vs) => {
                let slice = vs.as_slice();
                let t = then(slice);
                proof {
                    assert(slice.deep_view() =~= vs.deep_view());
                    assert(exists|st: SRMapView<M>, vs2: &[String]|
                        st.wf() && st.spec_get(key@, uid as int) == Some(vs2.deep_view())
                            && call_ensures(then, (vs2,), t)) by {
                        assert(map@.wf()
                            && map@.spec_get(key@, uid as int) == Some(slice.deep_view())
                            && call_ensures(then, (slice,), t));
                    }
                }
                Some(t)
            },
            None => {
                proof {
                    assert(exists|st: SRMapView<M>|
                        st.wf() && st.spec_get(key@, uid as int) is None) by {
                        assert(map@.wf() && map@.spec_get(key@, uid as int) is None);
                    }
                }
                None
            },
        };
        read_handle.release_read();
        r
    }

    /// [`ReadHandle::get_and`], paired with the same state's metadata.
    pub fn meta_get_and<T, F: Fn(&[String]) -> T>(&self, key: &String, then: F, uid: usize)
        -> (r: Option<(Option<T>, M)>)
        requires
            forall|vs: &[String]| call_requires(then, (vs,)),
        ensures
            r is Some,
            match r {
                Some((projected, m)) => match projected {
                    Some(t) => exists|st: SRMapView<M>, vs: &[String]|
                        st.wf() && st.meta == m
                            && st.spec_get(key@, uid as int) == Some(vs.deep_view())
                            && call_ensures(then, (vs,), t),
                    None => exists|st: SRMapView<M>|
                        st.wf() && st.meta == m && st.spec_get(key@, uid as int) is None,
                },
                None => true,
            },
    {
        let read_handle = self.inner.acquire_read();
        let map = read_handle.borrow();
        proof {
            map.lemma_wf_view();
        }
        let m = map.meta;
        let projected = match map.get(key, uid) {
            Some(vs) => {
                let slice = vs.as_slice();
                let t = then(slice);
                proof {
                    assert(slice.deep_view() =~= vs.deep_view());
                    assert(exists|st: SRMapView<M>, vs2: &[String]|
                        st.wf() && st.meta == m
                            && st.spec_get(key@, uid as int) == Some(vs2.deep_view())
                            && call_ensures(then, (vs2,), t)) by {
                        assert(map@.wf() && map@.meta == m
                            && map@.spec_get(key@, uid as int) == Some(slice.deep_view())
                            && call_ensures(then, (slice,), t));
                    }
                }
                Some(t)
            },
            None => {
                proof {
                    assert(exists|st: SRMapView<M>|
                        st.wf() && st.meta == m
                            && st.spec_get(key@, uid as int) is None) by {
                        assert(map@.wf() && map@.meta == m
                            && map@.spec_get(key@, uid as int) is None);
                    }
                }
                None
            },
        };
        let r = Some((projected, m));
        read_handle.release_read();
        r
    }

    /// Visit every `(key, value-set)` pair of the global map of the
    /// current shared state. Private overrides are per-user state and are
    /// not visited by the whole-map scan.
    pub fn for_each<F: Fn(&String, &[String])>(&self, f: F)
        requires
            forall|k: &String, vs: &[String]| call_requires(f, (k, vs)),
    {
        let read_handle = self.inner.acquire_read();
        let map = read_handle.borrow();
        let mut i: usize = 0;
        while i < map.g_map.len()
            invariant
                forall|k: &String, vs: &[String]| call_requires(f, (k, vs)),
                i <= map.g_map@.len(),
            decreases map.g_map@.len() - i,
        {
            f(&map.g_map[i].0, map.g_map[i].1.as_slice());
            i = i + 1;
        }
        read_handle.release_read();
    }

    /// Whether the global map of the current shared state has the key.
    pub fn contains_key(&self, key: &String) -> (r: bool)
        ensures
            exists|st: SRMapView<M>| #[trigger] st.wf()
                && r == st.gmap.contains_key(key@),
    {
        let read_handle = self.inner.acquire_read();
        let map = read_handle.borrow();
        proof {
            map.lemma_wf_view();
        }
        let r = match crate::srmap::find_g(&map.g_map, key) {
            Some(i) => {
                proof {
                    crate::assoc::lemma_contains(map.g_pairs(), key@);
                    assert(map.g_pairs()[i as int].0 == key@);
                }
                true
            },
            None => {
                proof {
                    crate::assoc::lemma_contains(map.g_pairs(), key@);
                }
                false
            },
        };
        proof {
            assert(map@.wf() && r == map@.gmap.contains_key(key@));
        }
        read_handle.release_read();
        r
    }
}

} // verus!
