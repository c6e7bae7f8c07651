//! Laws of the sharing policy, stated over the engine's mathematical model
//! ([`SRMapView`]) and proved once and for all. The engine's executable
//! operations are each proved to implement the corresponding `spec_*`
//! transition, so these laws carry over to every sequence of calls.

use vstd::prelude::*;

use crate::srmap::{has_true, SRMapView};

verus! {

/// Sharing: when two distinct users insert the same value-set for a key
/// that has no global entry yet (and no stale overrides for it), both see
/// that value afterwards, and the store holds exactly one copy of it —
/// the global entry — with no overrides added.
///
/// The second user must already be registered: a same-value insert by an
/// unregistered user leaves it without visibility.
pub proof fn lemma_sharing<M>(
    m: SRMapView<M>,
    k: Seq<char>,
    v: Seq<Seq<char>>,
    u1: int,
    u2: int,
)
    requires
        m.wf(),
        u1 != u2,
        !m.gmap.contains_key(k),
        m.ids.contains_key(u2),
        !m.umap.contains_key((u1, k)),
        !m.umap.contains_key((u2, k)),
    ensures
        ({
            let m2 = m.spec_insert(k, v, u1).spec_insert(k, v, u2);
            &&& m2.spec_get(k, u1) == Some(v)
            &&& m2.spec_get(k, u2) == Some(v)
            &&& m2.gmap == m.gmap.insert(k, v)
            &&& m2.gmap[k] == v
            &&& m2.umap == m.umap
        }),
{
    let m1 = m.spec_insert(k, v, u1);
    let slot1: int = if m.ids.contains_key(u1) { m.ids[u1] } else { 0 };
    let slot2 = m.ids[u2];
    assert(m1.bmap[k] == Seq::new((m.largest + 1) as nat, |i: int| i == slot1));
    assert(0 <= slot1 < m1.bmap[k].len());
    assert(0 <= slot2 < m1.bmap[k].len());
    let m2 = m1.spec_insert(k, v, u2);
    assert(m2.bmap[k][slot1]);
    assert(m2.bmap[k][slot2]);
    assert(m2.ids[u1] == slot1);
    assert(m2.ids[u2] == slot2);
}

/// Divergence: when a key's global entry was written by one user and a
/// second, distinct user inserts a different value-set, the first user
/// keeps the global value, the second gets its own, and the global entry
/// still holds the first writer's value.
pub proof fn lemma_divergence<M>(
    m: SRMapView<M>,
    k: Seq<char>,
    v1: Seq<Seq<char>>,
    v2: Seq<Seq<char>>,
    u1: int,
    u2: int,
)
    requires
        m.wf(),
        u1 != u2,
        v1 != v2,
        !m.gmap.contains_key(k),
        !m.umap.contains_key((u1, k)),
    ensures
        ({
            let m2 = m.spec_insert(k, v1, u1).spec_insert(k, v2, u2);
            &&& m2.spec_get(k, u1) == Some(v1)
            &&& m2.spec_get(k, u2) == Some(v2)
            &&& m2.gmap == m.gmap.insert(k, v1)
            &&& m2.gmap[k] == v1
        }),
{
    let m1 = m.spec_insert(k, v1, u1);
    let slot1: int = if m.ids.contains_key(u1) { m.ids[u1] } else { 0 };
    assert(m1.bmap[k] == Seq::new((m.largest + 1) as nat, |i: int| i == slot1));
    let m2 = m1.spec_insert(k, v2, u2);
    assert(m2.umap == m1.umap.insert((u2, k), v2));
    assert(!m2.umap.contains_key((u1, k)));
    assert(0 <= slot1 < m2.bmap[k].len());
    assert(m2.bmap[k][slot1]);
    assert(m2.ids[u1] == slot1);
}

/// Garbage collection: removing a key on behalf of the only user that
/// sees it deletes the global entry and its bitmap entirely — no key
/// stays global with zero visible users.
pub proof fn lemma_garbage_collection<M>(m: SRMapView<M>, k: Seq<char>, u: int)
    requires
        m.wf(),
        m.gmap.contains_key(k),
        m.ids.contains_key(u),
        forall|j: int| 0 <= j < m.bmap[k].len() ==> (m.bmap[k][j] <==> j == m.ids[u]),
    ensures
        !m.spec_remove(k, u).gmap.contains_key(k),
        !m.spec_remove(k, u).bmap.contains_key(k),
{
    assert(m.bmap.contains_key(k));
    let s = m.ids[u];
    assert(0 <= s < m.bmap[k].len());
    let b = m.bmap[k].update(s, false);
    assert(!has_true(b)) by {
        assert(forall|j: int| 0 <= j < b.len() ==> !b[j]);
    }
}

/// Isolation on join: a freshly joined user (one with no slot record and
/// no overrides) sees nothing, for every key, until an insert grants it
/// visibility.
pub proof fn lemma_join_isolation<M>(m: SRMapView<M>, u: int)
    requires
        m.wf(),
        !m.ids.contains_key(u),
        forall|k: Seq<char>| !m.umap.contains_key((u, k)),
    ensures
        forall|k: Seq<char>| m.spec_add_user(u).spec_get(k, u) is None,
{
    let m1 = m.spec_add_user(u);
    assert forall|k: Seq<char>| m1.spec_get(k, u) is None by {
        assert(!m1.umap.contains_key((u, k)));
        if m1.gmap.contains_key(k) {
            assert(m.bmap.contains_key(k));
            assert(m1.bmap[k] == m.bmap[k].push(false));
            assert(m1.ids[u] == m.largest + 1);
            assert(m.bmap[k].len() == m.largest + 1);
            assert(!m1.bmap[k][m.largest + 1]);
        }
    }
}

/// Idempotence: repeating an insert of the same value-set by the same
/// user changes nothing beyond the first application — the user's bit is
/// simply asserted again.
pub proof fn lemma_insert_idempotent<M>(
    m: SRMapView<M>,
    k: Seq<char>,
    v: Seq<Seq<char>>,
    uid: int,
)
    ensures
        m.spec_insert(k, v, uid).spec_insert(k, v, uid) == m.spec_insert(k, v, uid),
{
    let m1 = m.spec_insert(k, v, uid);
    let m2 = m1.spec_insert(k, v, uid);
    if m.gmap.contains_key(k) {
        if m.gmap[k] == v {
            if m.ids.contains_key(uid) && 0 <= m.ids[uid] < m.bmap[k].len() {
                let s = m.ids[uid];
                assert(m1.bmap[k] == m.bmap[k].update(s, true));
                assert(m1.bmap[k].update(s, true) =~= m1.bmap[k]);
                assert(m2.bmap =~= m1.bmap);
                assert(m2 =~~= m1);
            } else {
                assert(m2 =~~= m1);
            }
        } else {
            assert(m1.umap.insert((uid, k), v) =~= m1.umap);
            assert(m2 =~~= m1);
        }
    } else {
        let slot: int = if m.ids.contains_key(uid) { m.ids[uid] } else { 0 };
        assert(m1.gmap[k] == v);
        assert(m1.ids[uid] == slot);
        assert(m1.bmap[k] == Seq::new((m.largest + 1) as nat, |i: int| i == slot));
        if 0 <= slot < m1.bmap[k].len() {
            assert(m1.bmap[k].update(slot, true) =~= m1.bmap[k]);
            assert(m2.bmap =~= m1.bmap);
            assert(m2 =~~= m1);
        } else {
            assert(m2 =~~= m1);
        }
    }
}

} // verus!
