//! The laws the synchronization pipeline obeys, stated and proved once over
//! the specification functions the executable contracts are written in.

use crate::client::{
    entry_of, ids_match, merge_ok, merged_map, merged_snapshot, no_dup_conflict, payloads_parse,
    store_compatible, ClientEntryV,
};
use crate::codec::{content_id_of, lemma_frag_roundtrip, lemma_snapshot_roundtrip, p_frag};
use crate::engine::{delta_of, emit_entries, lemma_emit_ids, page_ids_of, pages_resolved};
use crate::ir::{ContentId, DocumentSnapshotV};
use crate::store::{
    has_id, has_id_below, idx_of, lemma_idx_of_unique, lemma_reach_refs_closed, reach_idx,
    reach_refs, reach_roots, store_inv, StoreEntryV,
};
use crate::stream::{stream_bytes, DeltaSetV, ModuleV};
use crate::wire::hash_words;
use vstd::prelude::*;

verus! {

// ---------------------------------------------------------------------------
// Determinism.
// ---------------------------------------------------------------------------

/// Law (determinism): what a session emits is a function of the engine's
/// state — its store, its horizon, its generation counter — and the compiled
/// snapshot alone.  Packing the same snapshot twice over equal states yields
/// byte-identical streams.
pub proof fn lemma_pack_deterministic(
    s1: Seq<StoreEntryV>,
    hz1: Set<ContentId>,
    snap1: DocumentSnapshotV,
    g1: u64,
    s2: Seq<StoreEntryV>,
    hz2: Set<ContentId>,
    snap2: DocumentSnapshotV,
    g2: u64,
)
    requires
        s1 == s2,
        hz1 == hz2,
        snap1 == snap2,
        g1 == g2,
    ensures
        delta_of(s1, hz1, snap1, g1) == delta_of(s2, hz2, snap2, g2),
        stream_bytes(delta_of(s1, hz1, snap1, g1)) == stream_bytes(delta_of(s2, hz2, snap2, g2)),
{
}

// ---------------------------------------------------------------------------
// Dedup correctness.
// ---------------------------------------------------------------------------

/// Law (dedup correctness), identity half: the content identity is a function
/// of a fragment's content alone, so structurally identical fragments in any
/// two documents share one identity.
pub proof fn lemma_shared_identity(f1: crate::ir::FragmentV, f2: crate::ir::FragmentV)
    requires
        f1 == f2,
    ensures
        content_id_of(f1) == content_id_of(f2),
{
}

/// Law (dedup correctness), transmission half: once a pack has advanced the
/// horizon, the next pack emits no module whose identity the first one
/// carried — a shared fragment is sent at most once per session.
pub proof fn lemma_module_sent_at_most_once(
    s1: Seq<StoreEntryV>,
    hz0: Set<ContentId>,
    snap1: DocumentSnapshotV,
    g1: u64,
    hz1: Set<ContentId>,
    s2: Seq<StoreEntryV>,
    snap2: DocumentSnapshotV,
    g2: u64,
)
    requires
        hz1 == hz0.union(reach_roots(s1, page_ids_of(snap1.pages))),
    ensures
        forall|i: int, j: int|
            0 <= i < delta_of(s1, hz0, snap1, g1).modules.len() && 0 <= j < delta_of(
                s2,
                hz1,
                snap2,
                g2,
            ).modules.len() ==> (#[trigger] delta_of(s1, hz0, snap1, g1).modules[i]).id != (
            #[trigger] delta_of(s2, hz1, snap2, g2).modules[j]).id,
{
    let rch1 = reach_roots(s1, page_ids_of(snap1.pages));
    let e1 = emit_entries(s1, rch1, hz0);
    let rch2 = reach_roots(s2, page_ids_of(snap2.pages));
    let e2 = emit_entries(s2, rch2, hz1);
    lemma_emit_ids(s1, rch1, hz0);
    lemma_emit_ids(s2, rch2, hz1);
    assert forall|i: int, j: int|
        0 <= i < delta_of(s1, hz0, snap1, g1).modules.len() && 0 <= j < delta_of(
            s2,
            hz1,
            snap2,
            g2,
        ).modules.len() implies (#[trigger] delta_of(s1, hz0, snap1, g1).modules[i]).id != (
    #[trigger] delta_of(s2, hz1, snap2, g2).modules[j]).id by {
        assert(delta_of(s1, hz0, snap1, g1).modules[i].id == e1[i].id);
        assert(delta_of(s2, hz1, snap2, g2).modules[j].id == e2[j].id);
        assert(rch1.contains(e1[i].id));
        assert(hz1.contains(e1[i].id));
        assert(!hz1.contains(e2[j].id));
    }
}

// ---------------------------------------------------------------------------
// Idempotent merge.
// ---------------------------------------------------------------------------

/// Whether some module in the list carries this identity.
pub open spec fn mods_have(mods: Seq<ModuleV>, id: ContentId) -> bool {
    exists|k: int| 0 <= k < mods.len() && (#[trigger] mods[k]).id == id
}

/// What the merged map holds: the module entries over the old map.
pub proof fn lemma_merged_map_members(m: Map<ContentId, ClientEntryV>, mods: Seq<ModuleV>)
    requires
        no_dup_conflict(DeltaSetV { modules: mods, snapshot: None }),
    ensures
        forall|id: ContentId|
            #[trigger] merged_map(m, mods).contains_key(id) <==> (m.contains_key(id) || mods_have(
                mods,
                id,
            )),
        forall|id: ContentId|
            m.contains_key(id) && !mods_have(mods, id) ==> #[trigger] merged_map(m, mods)[id]
                == m[id],
        forall|k: int|
            0 <= k < mods.len() ==> #[trigger] merged_map(m, mods)[mods[k].id] == entry_of(
                mods[k],
            ),
    decreases mods.len(),
{
    if mods.len() > 0 {
        let pre = mods.drop_last();
        assert(no_dup_conflict(DeltaSetV { modules: pre, snapshot: None })) by {
            assert forall|k1: int, k2: int|
                0 <= k1 < pre.len() && 0 <= k2 < pre.len() && (#[trigger] pre[k1]).id == (
                #[trigger] pre[k2]).id implies pre[k1].payload == pre[k2].payload by {
                assert(mods[k1] == pre[k1] && mods[k2] == pre[k2]);
            }
        }
        lemma_merged_map_members(m, pre);
        assert forall|id: ContentId|
            #[trigger] merged_map(m, mods).contains_key(id) <==> (m.contains_key(id) || mods_have(
                mods,
                id,
            )) by {
            if id == mods.last().id {
                assert(mods_have(mods, id));
            } else {
                if mods_have(pre, id) {
                    let k = choose|k: int| 0 <= k < pre.len() && (#[trigger] pre[k]).id == id;
                    assert(mods[k] == pre[k]);
                    assert(mods_have(mods, id));
                }
                if mods_have(mods, id) {
                    let k = choose|k: int| 0 <= k < mods.len() && (#[trigger] mods[k]).id == id;
                    assert(k < mods.len() - 1);
                    assert(pre[k] == mods[k]);
                    assert(mods_have(pre, id));
                }
            }
        }
        assert forall|k: int| 0 <= k < mods.len() implies #[trigger] merged_map(m, mods)[mods[k].id]
            == entry_of(mods[k]) by {
            if mods[k].id == mods.last().id {
                // The last write wins, and duplicates carry equal payloads.
                assert(mods[k].payload == mods.last().payload);
                assert(entry_of(mods[k]) == entry_of(mods.last()));
            } else {
                assert(pre[k] == mods[k]);
                assert(merged_map(m, pre)[pre[k].id] == entry_of(pre[k]));
            }
        }
        assert forall|id: ContentId|
            m.contains_key(id) && !mods_have(mods, id) implies #[trigger] merged_map(m, mods)[id]
            == m[id] by {
            assert(!mods_have(pre, id)) by {
                if mods_have(pre, id) {
                    let k = choose|k: int| 0 <= k < pre.len() && (#[trigger] pre[k]).id == id;
                    assert(mods[k] == pre[k]);
                }
            }
            assert(id != mods.last().id);
        }
    }
}

/// Law (idempotent merge): a delta set the client accepted is accepted again
/// unchanged, and merging it a second time leaves both the store and the
/// snapshot pointer exactly as after the first merge.
pub proof fn lemma_merge_idempotent(
    m: Map<ContentId, ClientEntryV>,
    ds: DeltaSetV,
    old_snap: Option<DocumentSnapshotV>,
)
    requires
        merge_ok(m, ds),
    ensures
        merge_ok(merged_map(m, ds.modules), ds),
        merged_map(merged_map(m, ds.modules), ds.modules) == merged_map(m, ds.modules),
        merged_snapshot(merged_snapshot(old_snap, ds), ds) == merged_snapshot(old_snap, ds),
{
    let mods = ds.modules;
    assert(no_dup_conflict(DeltaSetV { modules: mods, snapshot: None })) by {
        assert forall|k1: int, k2: int|
            0 <= k1 < mods.len() && 0 <= k2 < mods.len() && (#[trigger] mods[k1]).id == (
            #[trigger] mods[k2]).id implies mods[k1].payload == mods[k2].payload by {
            assert(ds.modules[k1].payload == ds.modules[k2].payload);
        }
    }
    lemma_merged_map_members(m, mods);
    let m1 = merged_map(m, mods);
    assert(store_compatible(m1, ds)) by {
        assert forall|k: int|
            0 <= k < ds.modules.len() && m1.contains_key((#[trigger] ds.modules[k]).id) implies m1[
            ds.modules[k].id].words == ds.modules[k].payload by {
            assert(m1[mods[k].id] == entry_of(mods[k]));
        }
    }
    let m2 = merged_map(m1, mods);
    lemma_merged_map_members(m1, mods);
    assert(m2 =~= m1) by {
        assert forall|id: ContentId| m2.contains_key(id) implies m1.contains_key(id) && m2[id]
            == m1[id] by {
            if mods_have(mods, id) {
                let k = choose|k: int| 0 <= k < mods.len() && (#[trigger] mods[k]).id == id;
                assert(m2[mods[k].id] == entry_of(mods[k]));
                assert(m1[mods[k].id] == entry_of(mods[k]));
            } else {
                assert(m2[id] == m1[id]);
            }
        }
        assert forall|id: ContentId| m1.contains_key(id) implies m2.contains_key(id) by {}
    }
}

/// Law (merge commutativity per identity): what a merge produces is decided
/// by which identities arrive with which payloads, never by their order: two
/// module lists carrying the same identities with the same payloads merge any
/// client map to the same result.
pub proof fn lemma_merge_order_irrelevant(
    m: Map<ContentId, ClientEntryV>,
    mods1: Seq<ModuleV>,
    mods2: Seq<ModuleV>,
)
    requires
        no_dup_conflict(DeltaSetV { modules: mods1, snapshot: None }),
        no_dup_conflict(DeltaSetV { modules: mods2, snapshot: None }),
        forall|id: ContentId| mods_have(mods1, id) <==> mods_have(mods2, id),
        forall|k1: int, k2: int|
            0 <= k1 < mods1.len() && 0 <= k2 < mods2.len() && (#[trigger] mods1[k1]).id == (
            #[trigger] mods2[k2]).id ==> mods1[k1].payload == mods2[k2].payload,
    ensures
        merged_map(m, mods1) == merged_map(m, mods2),
{
    lemma_merged_map_members(m, mods1);
    lemma_merged_map_members(m, mods2);
    let r1 = merged_map(m, mods1);
    let r2 = merged_map(m, mods2);
    assert(r1 =~= r2) by {
        assert forall|id: ContentId| r1.contains_key(id) implies r2.contains_key(id) && r1[id]
            == r2[id] by {
            if mods_have(mods1, id) {
                let k1 = choose|k: int| 0 <= k < mods1.len() && (#[trigger] mods1[k]).id == id;
                let k2 = choose|k: int| 0 <= k < mods2.len() && (#[trigger] mods2[k]).id == id;
                assert(r1[mods1[k1].id] == entry_of(mods1[k1]));
                assert(r2[mods2[k2].id] == entry_of(mods2[k2]));
                assert(mods1[k1].payload == mods2[k2].payload);
            } else {
                assert(r1[id] == m[id] && r2[id] == m[id]);
            }
        }
        assert forall|id: ContentId| r2.contains_key(id) implies r1.contains_key(id) by {}
    }
}

// ---------------------------------------------------------------------------
// Resync equivalence.
// ---------------------------------------------------------------------------

/// A client mirrors an engine state when it points at the same snapshot,
/// holds every fragment ever registered that it holds at all with the exact
/// stored bytes, and holds at least everything within the horizon.
pub open spec fn in_sync(
    es: Seq<StoreEntryV>,
    hz: Set<ContentId>,
    cur: Option<DocumentSnapshotV>,
    cm: Map<ContentId, ClientEntryV>,
    csnap: Option<DocumentSnapshotV>,
) -> bool {
    &&& csnap == cur
    &&& client_mirrors(es, cm)
    &&& forall|id: ContentId| hz.contains(id) ==> cm.contains_key(id)
}

/// Every fragment the client holds is one the engine's store holds, byte for
/// byte.
pub open spec fn client_mirrors(es: Seq<StoreEntryV>, cm: Map<ContentId, ClientEntryV>) -> bool {
    forall|id: ContentId|
        #[trigger] cm.contains_key(id) ==> has_id(es, id) && cm[id].words == es[idx_of(
            es,
            id,
        )].words
}

/// The delta an engine packs is accepted by any client that mirrors its
/// store, and merging it brings the client in sync with the engine's state
/// after the pack.  Instantiated with an empty horizon and an empty client,
/// this is exactly the resync path; instantiated with the session's horizon,
/// it is one step of the replay path — so replaying every delta in order and
/// a single resync of the final state reach the same client state.
pub proof fn lemma_sync_after_merge(
    es: Seq<StoreEntryV>,
    hz: Set<ContentId>,
    snap: DocumentSnapshotV,
    g: u64,
    cm: Map<ContentId, ClientEntryV>,
    csnap: Option<DocumentSnapshotV>,
)
    requires
        store_inv(es),
        snap.wf(),
        client_mirrors(es, cm),
        forall|id: ContentId| hz.contains(id) ==> cm.contains_key(id),
    ensures
        merge_ok(cm, delta_of(es, hz, snap, g)),
        in_sync(
            es,
            hz.union(reach_roots(es, page_ids_of(snap.pages))),
            Some(snap),
            merged_map(cm, delta_of(es, hz, snap, g).modules),
            merged_snapshot(csnap, delta_of(es, hz, snap, g)),
        ),
{
    let rch = reach_roots(es, page_ids_of(snap.pages));
    let ee = emit_entries(es, rch, hz);
    let ds = delta_of(es, hz, snap, g);
    lemma_emit_ids(es, rch, hz);
    lemma_emit_subset(es, rch, hz);
    lemma_reach_refs_closed(es, page_ids_of(snap.pages), es.len() as int);
    // Every emitted entry is a stored entry at its own index.
    assert forall|k: int| 0 <= k < ee.len() implies {
        &&& has_id(es, (#[trigger] ee[k]).id)
        &&& es[idx_of(es, ee[k].id)] == ee[k]
        &&& ee[k].frag.wf()
        &&& ee[k].words == crate::codec::frag_words(ee[k].frag)
        &&& ee[k].id == hash_words(ee[k].words)
    } by {
        let w = choose|w: int| 0 <= w < es.len() && es[w] == ee[k];
        lemma_idx_of_unique(es, w);
    }
    // The delta is accepted.
    assert(payloads_parse(ds)) by {
        assert forall|k: int| 0 <= k < ds.modules.len() implies p_frag(
            (#[trigger] ds.modules[k]).payload,
        ) is Some by {
            assert(ds.modules[k].payload == ee[k].words);
            lemma_frag_roundtrip(ee[k].frag);
        }
        lemma_snapshot_roundtrip(snap);
    }
    assert(ids_match(ds)) by {
        assert forall|k: int| 0 <= k < ds.modules.len() implies (#[trigger] ds.modules[k]).id
            == hash_words(ds.modules[k].payload) by {
            assert(ds.modules[k].id == ee[k].id && ds.modules[k].payload == ee[k].words);
        }
    }
    assert(no_dup_conflict(ds)) by {
        assert forall|k1: int, k2: int|
            0 <= k1 < ds.modules.len() && 0 <= k2 < ds.modules.len() && (
            #[trigger] ds.modules[k1]).id == (#[trigger] ds.modules[k2]).id implies
            ds.modules[k1].payload == ds.modules[k2].payload by {
            assert(es[idx_of(es, ee[k1].id)] == ee[k1]);
            assert(es[idx_of(es, ee[k2].id)] == ee[k2]);
        }
    }
    assert(store_compatible(cm, ds)) by {
        assert forall|k: int|
            0 <= k < ds.modules.len() && cm.contains_key((#[trigger] ds.modules[k]).id) implies cm[
            ds.modules[k].id].words == ds.modules[k].payload by {
            assert(cm[ee[k].id].words == es[idx_of(es, ee[k].id)].words);
        }
    }
    // The merged client mirrors the store and covers the new horizon.
    lemma_merged_map_members(cm, ds.modules);
    let m1 = merged_map(cm, ds.modules);
    assert(client_mirrors(es, m1)) by {
        assert forall|id: ContentId| #[trigger] m1.contains_key(id) implies has_id(es, id)
            && m1[id].words == es[idx_of(es, id)].words by {
            if crate::laws::mods_have(ds.modules, id) {
                let k = choose|k: int|
                    0 <= k < ds.modules.len() && (#[trigger] ds.modules[k]).id == id;
                assert(m1[ds.modules[k].id] == entry_of(ds.modules[k]));
                assert(es[idx_of(es, ee[k].id)] == ee[k]);
            } else {
                assert(m1[id] == cm[id]);
            }
        }
    }
    assert forall|id: ContentId| hz.union(rch).contains(id) implies m1.contains_key(id) by {
        if hz.contains(id) {
            assert(cm.contains_key(id));
            if !mods_have(ds.modules, id) {
                assert(m1[id] == cm[id]);
            }
        } else {
            assert(rch.contains(id));
            assert(has_id(es, id));
            let w = idx_of(es, id);
            assert(0 <= w < es.len() && es[w].id == id);
            if !cm.contains_key(id) {
                // Reachable and not yet held, so it was emitted.
                assert(!hz.contains(id));
                assert(ee.contains(es[w]));
                let k = choose|k: int| 0 <= k < ee.len() && ee[k] == es[w];
                assert(ds.modules[k].id == id);
                assert(mods_have(ds.modules, id));
            }
        }
    }
    // The snapshot pointer lands on the packed snapshot.
    lemma_snapshot_roundtrip(snap);
    assert(merged_snapshot(csnap, ds) == Some(snap));
}

/// Every emitted entry is an entry of the store.
pub proof fn lemma_emit_subset(s: Seq<StoreEntryV>, rch: Set<ContentId>, hz: Set<ContentId>)
    ensures
        forall|k: int|
            0 <= k < emit_entries(s, rch, hz).len() ==> s.contains(
                #[trigger] emit_entries(s, rch, hz)[k],
            ),
        forall|k: int|
            0 <= k < s.len() && rch.contains((#[trigger] s[k]).id) && !hz.contains(s[k].id)
                ==> emit_entries(s, rch, hz).contains(s[k]),
    decreases s.len(),
{
    reveal(Seq::filter);
    lemma_emit_ids(s, rch, hz);
    if s.len() > 0 {
        let pre = s.drop_last();
        lemma_emit_subset(pre, rch, hz);
        crate::engine::lemma_emit_push(pre, rch, hz, s.last());
        assert(pre.push(s.last()) =~= s);
        assert forall|k: int| 0 <= k < emit_entries(s, rch, hz).len() implies s.contains(
            #[trigger] emit_entries(s, rch, hz)[k],
        ) by {
            let es = emit_entries(s, rch, hz);
            let ep = emit_entries(pre, rch, hz);
            if k < ep.len() {
                assert(ep[k] == es[k]);
                assert(pre.contains(ep[k]));
                let w = choose|w: int| 0 <= w < pre.len() && pre[w] == ep[k];
                assert(s[w] == ep[k]);
            } else {
                assert(es[k] == s.last());
                assert(s[s.len() - 1] == s.last());
            }
        }
    }
}

/// Registering new fragments between packs does not disturb the mirror: a
/// client that mirrors the store still mirrors it after an append.
pub proof fn lemma_mirror_preserved_by_register(
    es: Seq<StoreEntryV>,
    e: StoreEntryV,
    cm: Map<ContentId, ClientEntryV>,
)
    requires
        store_inv(es.push(e)),
        client_mirrors(es, cm),
    ensures
        client_mirrors(es.push(e), cm),
{
    let news = es.push(e);
    assert forall|id: ContentId| #[trigger] cm.contains_key(id) implies has_id(news, id)
        && cm[id].words == news[idx_of(news, id)].words by {
        let w = idx_of(es, id);
        assert(has_id(es, id));
        assert(0 <= w < es.len() && es[w].id == id);
        assert(news[w] == es[w]);
        lemma_idx_of_unique(news, w);
    }
}

/// Law (resync equivalence): two clients that mirror one engine state, point
/// at its snapshot and hold at least its horizon — one that replayed every
/// delta of the session in order, one initialized by a single resync of the
/// final state — agree on the snapshot pointer and, byte for byte, on every
/// fragment reachable from it.  Since a held fragment is the decoded value of
/// its bytes, the two clients show the same document.
pub proof fn lemma_resync_equivalence(
    es: Seq<StoreEntryV>,
    snap: DocumentSnapshotV,
    hz_a: Set<ContentId>,
    cm_a: Map<ContentId, ClientEntryV>,
    csnap_a: Option<DocumentSnapshotV>,
    hz_b: Set<ContentId>,
    cm_b: Map<ContentId, ClientEntryV>,
    csnap_b: Option<DocumentSnapshotV>,
)
    requires
        store_inv(es),
        in_sync(es, hz_a, Some(snap), cm_a, csnap_a),
        in_sync(es, hz_b, Some(snap), cm_b, csnap_b),
        reach_roots(es, page_ids_of(snap.pages)).subset_of(hz_a),
        reach_roots(es, page_ids_of(snap.pages)).subset_of(hz_b),
    ensures
        csnap_a == csnap_b,
        forall|id: ContentId|
            #[trigger] reach_roots(es, page_ids_of(snap.pages)).contains(id) ==> {
                &&& cm_a.contains_key(id)
                &&& cm_b.contains_key(id)
                &&& cm_a[id].words == cm_b[id].words
            },
{
    assert forall|id: ContentId|
        #[trigger] reach_roots(es, page_ids_of(snap.pages)).contains(id) implies {
        &&& cm_a.contains_key(id)
        &&& cm_b.contains_key(id)
        &&& cm_a[id].words == cm_b[id].words
    } by {
        assert(hz_a.contains(id) && hz_b.contains(id));
        assert(cm_a[id].words == es[idx_of(es, id)].words);
        assert(cm_b[id].words == es[idx_of(es, id)].words);
    }
}

/// Every fragment a client holds is the decoded value of its own bytes.
pub open spec fn entries_decode(cm: Map<ContentId, ClientEntryV>) -> bool {
    forall|id: ContentId|
        #[trigger] cm.contains_key(id) ==> p_frag(cm[id].words) == Some(cm[id].frag)
}

/// A resolvable reference is itself within the reach-set of its list.
pub proof fn lemma_reach_includes_refs(s: Seq<StoreEntryV>, rs: Seq<ContentId>, bound: int)
    ensures
        forall|j: int|
            0 <= j < rs.len() && has_id_below(s, bound, #[trigger] rs[j]) && 0 <= idx_of(s, rs[j])
                < bound ==> reach_refs(s, rs, bound).contains(rs[j]),
    decreases rs.len(),
{
    if rs.len() > 0 {
        lemma_reach_includes_refs(s, rs.drop_first(), bound);
        assert forall|j: int|
            0 <= j < rs.len() && has_id_below(s, bound, #[trigger] rs[j]) && 0 <= idx_of(
                s,
                rs[j],
            ) < bound implies reach_refs(s, rs, bound).contains(rs[j]) by {
            if j == 0 {
                assert(reach_idx(s, idx_of(s, rs[0])).contains(s[idx_of(s, rs[0])].id));
            } else {
                assert(rs.drop_first()[j - 1] == rs[j]);
                assert(reach_refs(s, rs.drop_first(), bound).contains(rs[j]));
            }
        }
    }
}

/// Two mirroring clients hold equal fragments under every identity a
/// reach-set covers, so node rendering cannot tell them apart.
proof fn lemma_render_node_agrees(
    es: Seq<StoreEntryV>,
    cm_a: Map<ContentId, ClientEntryV>,
    cm_b: Map<ContentId, ClientEntryV>,
    rch: Set<ContentId>,
    id: ContentId,
    tx: int,
    ty: int,
    w: crate::geom::Rect,
    fuel: nat,
)
    requires
        store_inv(es),
        client_mirrors(es, cm_a),
        client_mirrors(es, cm_b),
        entries_decode(cm_a),
        entries_decode(cm_b),
        forall|x: ContentId|
            #[trigger] rch.contains(x) ==> cm_a.contains_key(x) && cm_b.contains_key(x),
        forall|x: ContentId|
            #[trigger] rch.contains(x) ==> reach_idx(es, idx_of(es, x)).subset_of(rch),
        rch.contains(id),
    ensures
        crate::render::render_node(cm_a, id, tx, ty, w, fuel) == crate::render::render_node(
            cm_b,
            id,
            tx,
            ty,
            w,
            fuel,
        ),
    decreases fuel, 0int,
{
    if fuel == 0 {
    } else {
        // Both clients hold the identity, with the store's bytes, so they
        // decode to the store's fragment.
        let k = idx_of(es, id);
        assert(cm_a[id].words == es[k].words && cm_b[id].words == es[k].words);
        assert(has_id(es, id) && 0 <= k < es.len() && es[k].id == id) by {
            assert(cm_a.contains_key(id));
        }
        assert(es[k].words == crate::codec::frag_words(es[k].frag) && es[k].frag.wf());
        lemma_frag_roundtrip(es[k].frag);
        assert(cm_a[id].frag == es[k].frag && cm_b[id].frag == es[k].frag);
        let f = es[k].frag;
        // Every reference of the fragment is itself covered.
        assert forall|j: int| 0 <= j < f.refs().len() implies rch.contains(
            #[trigger] f.refs()[j],
        ) by {
            assert(has_id_below(es, k, f.refs()[j]));
            let wit = choose|wk: int|
                0 <= wk < k && wk < es.len() && (#[trigger] es[wk]).id == f.refs()[j];
            lemma_idx_of_unique(es, wit);
            lemma_reach_includes_refs(es, f.refs(), k);
            assert(reach_refs(es, f.refs(), k).contains(f.refs()[j]));
            assert(reach_idx(es, k).contains(f.refs()[j]));
            assert(reach_idx(es, idx_of(es, id)).subset_of(rch));
            lemma_idx_of_unique(es, k);
        }
        match f {
            crate::ir::FragmentV::Page { children, .. } => {
                assert forall|j: int| 0 <= j < children.len() implies rch.contains(
                    (#[trigger] children[j]).id,
                ) by {
                    assert(f.refs()[j] == children[j].id);
                }
                lemma_render_children_agrees(
                    es,
                    cm_a,
                    cm_b,
                    rch,
                    children,
                    tx,
                    ty,
                    w,
                    (fuel - 1) as nat,
                );
            },
            crate::ir::FragmentV::Frame { children, .. } => {
                assert forall|j: int| 0 <= j < children.len() implies rch.contains(
                    (#[trigger] children[j]).id,
                ) by {
                    assert(f.refs()[j] == children[j].id);
                }
                lemma_render_children_agrees(
                    es,
                    cm_a,
                    cm_b,
                    rch,
                    children,
                    tx,
                    ty,
                    w,
                    (fuel - 1) as nat,
                );
            },
            _ => {},
        }
    }
}

proof fn lemma_render_children_agrees(
    es: Seq<StoreEntryV>,
    cm_a: Map<ContentId, ClientEntryV>,
    cm_b: Map<ContentId, ClientEntryV>,
    rch: Set<ContentId>,
    cs: Seq<crate::ir::ChildRef>,
    tx: int,
    ty: int,
    w: crate::geom::Rect,
    fuel: nat,
)
    requires
        store_inv(es),
        client_mirrors(es, cm_a),
        client_mirrors(es, cm_b),
        entries_decode(cm_a),
        entries_decode(cm_b),
        forall|x: ContentId|
            #[trigger] rch.contains(x) ==> cm_a.contains_key(x) && cm_b.contains_key(x),
        forall|x: ContentId|
            #[trigger] rch.contains(x) ==> reach_idx(es, idx_of(es, x)).subset_of(rch),
        forall|j: int| 0 <= j < cs.len() ==> rch.contains((#[trigger] cs[j]).id),
    ensures
        crate::render::render_children(cm_a, cs, tx, ty, w, fuel)
            == crate::render::render_children(cm_b, cs, tx, ty, w, fuel),
    decreases fuel, cs.len(),
{
    if cs.len() > 0 {
        lemma_render_node_agrees(
            es,
            cm_a,
            cm_b,
            rch,
            cs[0].id,
            tx + cs[0].dx,
            ty + cs[0].dy,
            w,
            fuel,
        );
        assert forall|j: int| 0 <= j < cs.drop_first().len() implies rch.contains(
            (#[trigger] cs.drop_first()[j]).id,
        ) by {
            assert(cs.drop_first()[j] == cs[j + 1]);
        }
        lemma_render_children_agrees(es, cm_a, cm_b, rch, cs.drop_first(), tx, ty, w, fuel);
    }
}

proof fn lemma_render_pages_agrees(
    es: Seq<StoreEntryV>,
    cm_a: Map<ContentId, ClientEntryV>,
    cm_b: Map<ContentId, ClientEntryV>,
    rch: Set<ContentId>,
    pages: Seq<crate::ir::PageEntry>,
    w: crate::geom::Rect,
)
    requires
        store_inv(es),
        client_mirrors(es, cm_a),
        client_mirrors(es, cm_b),
        entries_decode(cm_a),
        entries_decode(cm_b),
        forall|x: ContentId|
            #[trigger] rch.contains(x) ==> cm_a.contains_key(x) && cm_b.contains_key(x),
        forall|x: ContentId|
            #[trigger] rch.contains(x) ==> reach_idx(es, idx_of(es, x)).subset_of(rch),
        forall|j: int| 0 <= j < pages.len() ==> rch.contains((#[trigger] pages[j]).id),
    ensures
        crate::render::render_pages(cm_a, pages, w) == crate::render::render_pages(cm_b, pages, w),
    decreases pages.len(),
{
    if pages.len() > 0 {
        lemma_render_node_agrees(
            es,
            cm_a,
            cm_b,
            rch,
            pages[0].id,
            pages[0].frame.x_min as int,
            pages[0].frame.y_min as int,
            w,
            crate::geom::MAX_RENDER_DEPTH as nat,
        );
        assert forall|j: int| 0 <= j < pages.drop_first().len() implies rch.contains(
            (#[trigger] pages.drop_first()[j]).id,
        ) by {
            assert(pages.drop_first()[j] == pages[j + 1]);
        }
        lemma_render_pages_agrees(es, cm_a, cm_b, rch, pages.drop_first(), w);
    }
}

/// Law (resync equivalence, rendered): the replayed client and the resynced
/// client do not just agree byte-for-byte on the reachable fragments — they
/// render identical markup for every window.
pub proof fn lemma_resync_renders_identically(
    es: Seq<StoreEntryV>,
    snap: DocumentSnapshotV,
    hz_a: Set<ContentId>,
    cm_a: Map<ContentId, ClientEntryV>,
    csnap_a: Option<DocumentSnapshotV>,
    hz_b: Set<ContentId>,
    cm_b: Map<ContentId, ClientEntryV>,
    csnap_b: Option<DocumentSnapshotV>,
    w: crate::geom::Rect,
)
    requires
        store_inv(es),
        pages_resolved(es, snap.pages),
        in_sync(es, hz_a, Some(snap), cm_a, csnap_a),
        in_sync(es, hz_b, Some(snap), cm_b, csnap_b),
        entries_decode(cm_a),
        entries_decode(cm_b),
        reach_roots(es, page_ids_of(snap.pages)).subset_of(hz_a),
        reach_roots(es, page_ids_of(snap.pages)).subset_of(hz_b),
    ensures
        crate::render::render_view(cm_a, csnap_a, w) == crate::render::render_view(
            cm_b,
            csnap_b,
            w,
        ),
{
    let roots = page_ids_of(snap.pages);
    let rch = reach_roots(es, roots);
    lemma_reach_refs_closed(es, roots, es.len() as int);
    assert forall|x: ContentId| #[trigger] rch.contains(x) implies reach_idx(
        es,
        idx_of(es, x),
    ).subset_of(rch) by {}
    lemma_reach_includes_refs(es, roots, es.len() as int);
    assert forall|j: int| 0 <= j < snap.pages.len() implies rch.contains(
        (#[trigger] snap.pages[j]).id,
    ) by {
        assert(roots[j] == snap.pages[j].id);
        assert(has_id(es, roots[j]));
        let wit = idx_of(es, roots[j]);
        assert(0 <= wit < es.len() && es[wit].id == roots[j]);
        assert(has_id_below(es, es.len() as int, roots[j]));
    }
    lemma_render_pages_agrees(es, cm_a, cm_b, rch, snap.pages, w);
}

} // verus!
