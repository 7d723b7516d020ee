//! The incremental client state: a mirror of the server's content-addressed
//! store, built by merging delta streams.
//!
//! A merge validates the whole stream first and only then applies it, so a
//! rejected stream changes nothing.  Applying is append-only per identity:
//! re-inserting an identity with identical bytes is a no-op, and an identity
//! carrying different bytes is a protocol-consistency error whose recovery is
//! a full resync.

use crate::codec::{lemma_p_frag_wf, lemma_p_snapshot_wf, p_frag, p_snapshot};
use crate::decode::{decode_fragment, decode_snapshot};
use crate::ir::{ContentId, DocumentSnapshot, DocumentSnapshotV, Fragment, FragmentV};
use crate::stream::{DeltaSetV, FramingError, ModuleStream, ModuleV};
use crate::wire::{hash_words, hash_words_exec, words_eq};
use std::collections::HashMap;
use vstd::prelude::*;

verus! {

broadcast use vstd::std_specs::hash::group_hash_axioms, vstd::std_specs::vec::group_vec_axioms;

/// One fragment held by the client: the decoded value and the exact bytes it
/// arrived as.
#[derive(Debug)]
pub struct ClientEntry {
    pub frag: Fragment,
    pub words: Vec<u64>,
}

/// Mathematical image of a [`ClientEntry`].
pub struct ClientEntryV {
    pub frag: FragmentV,
    pub words: Seq<u64>,
}

impl View for ClientEntry {
    type V = ClientEntryV;

    open spec fn view(&self) -> ClientEntryV {
        ClientEntryV { frag: self.frag@, words: self.words@ }
    }
}

/// The view of a client fragment map.
pub open spec fn cmap(m: Map<ContentId, ClientEntry>) -> Map<ContentId, ClientEntryV> {
    Map::new(|id: ContentId| m.contains_key(id), |id: ContentId| m[id]@)
}

/// Why a decoded stream cannot be merged.
#[derive(Clone, Copy, Debug, PartialEq, Eq, Structural)]
pub enum ProtocolError {
    /// The byte buffer does not frame a stream at all.
    Framing(FramingError),
    /// A module payload does not decode to a fragment, or the snapshot
    /// payload does not decode to a snapshot.
    MalformedPayload,
    /// A module's claimed content identity is not the hash of its payload.
    IdMismatch,
    /// One content identity arrived with two different payloads, within the
    /// stream or against what the client already holds; recovery is a full
    /// resync.
    Conflict,
}

/// Every module payload decodes, the snapshot payload included.
pub open spec fn payloads_parse(ds: DeltaSetV) -> bool {
    &&& forall|k: int|
        0 <= k < ds.modules.len() ==> p_frag((#[trigger] ds.modules[k]).payload) is Some
    &&& match ds.snapshot {
        Some(sm) => p_snapshot(sm.payload) is Some,
        None => true,
    }
}

/// Every module is tagged with the hash of its own payload.
pub open spec fn ids_match(ds: DeltaSetV) -> bool {
    &&& forall|k: int|
        0 <= k < ds.modules.len() ==> (#[trigger] ds.modules[k]).id == hash_words(
            ds.modules[k].payload,
        )
    &&& match ds.snapshot {
        Some(sm) => sm.id == hash_words(sm.payload),
        None => true,
    }
}

/// Duplicate identities within one stream carry identical payloads.
pub open spec fn no_dup_conflict(ds: DeltaSetV) -> bool {
    forall|k1: int, k2: int|
        0 <= k1 < ds.modules.len() && 0 <= k2 < ds.modules.len() && (#[trigger] ds.modules[k1]).id
            == (#[trigger] ds.modules[k2]).id ==> ds.modules[k1].payload == ds.modules[k2].payload
}

/// An identity the client already holds arrives with the bytes it holds.
pub open spec fn store_compatible(m: Map<ContentId, ClientEntryV>, ds: DeltaSetV) -> bool {
    forall|k: int|
        0 <= k < ds.modules.len() && m.contains_key((#[trigger] ds.modules[k]).id) ==> m[
            ds.modules[k].id
        ].words == ds.modules[k].payload
}

/// A stream the client accepts against its store.
pub open spec fn merge_ok(m: Map<ContentId, ClientEntryV>, ds: DeltaSetV) -> bool {
    &&& payloads_parse(ds)
    &&& ids_match(ds)
    &&& no_dup_conflict(ds)
    &&& store_compatible(m, ds)
}

/// The client entry a fragment module becomes.
pub open spec fn entry_of(m: ModuleV) -> ClientEntryV {
    ClientEntryV { frag: p_frag(m.payload)->0, words: m.payload }
}

/// The fragment map after inserting every module, in stream order.
pub open spec fn merged_map(
    m: Map<ContentId, ClientEntryV>,
    mods: Seq<ModuleV>,
) -> Map<ContentId, ClientEntryV>
    decreases mods.len(),
{
    if mods.len() == 0 {
        m
    } else {
        merged_map(m, mods.drop_last()).insert(mods.last().id, entry_of(mods.last()))
    }
}

/// The snapshot pointer after a merge.
pub open spec fn merged_snapshot(
    old_snap: Option<DocumentSnapshotV>,
    ds: DeltaSetV,
) -> Option<DocumentSnapshotV> {
    match ds.snapshot {
        Some(sm) => Some(p_snapshot(sm.payload)->0),
        None => old_snap,
    }
}

/// The client-side mapping from content identity to fragment, plus the
/// current snapshot pointer and the render cache.
#[derive(Debug)]
pub struct ClientStore {
    /// Fragments by identity; append-only per identity.
    pub fragments: HashMap<ContentId, ClientEntry>,
    /// The current snapshot, replaced whenever a delta carries one.
    pub snapshot: Option<DocumentSnapshot>,
    /// Cached leaf markup by content identity; content never changes under
    /// an identity, so entries stay valid for the whole session.
    pub render_cache: HashMap<ContentId, String>,
}

impl ClientStore {
    /// The view of the fragment map.
    pub open spec fn fmap(self) -> Map<ContentId, ClientEntryV> {
        cmap(self.fragments@)
    }

    /// The view of the snapshot pointer.
    pub open spec fn snapshot_v(self) -> Option<DocumentSnapshotV> {
        match self.snapshot {
            Some(s) => Some(s@),
            None => None,
        }
    }

    /// The client invariant: every held fragment is the decoded value of its
    /// own bytes, keyed by the hash of those bytes, and the render cache only
    /// caches the markup of held fragments.
    pub open spec fn wf(self) -> bool {
        &&& forall|id: ContentId|
            #[trigger] self.fmap().contains_key(id) ==> {
                let e = self.fmap()[id];
                &&& p_frag(e.words) == Some(e.frag)
                &&& e.frag.wf()
                &&& id == hash_words(e.words)
            }
        &&& match self.snapshot {
            Some(s) => s@.wf(),
            None => true,
        }
        &&& forall|id: ContentId|
            #[trigger] self.render_cache@.contains_key(id) ==> self.fmap().contains_key(id)
                && self.render_cache@[id]@ == crate::render::leaf_markup(self.fmap()[id].frag)
    }

    /// A fresh, empty client.
    pub fn new() -> (r: ClientStore)
        ensures
            r.wf(),
            r.fmap() == Map::<ContentId, ClientEntryV>::empty(),
            r.snapshot_v() is None,
    {
        let r = ClientStore {
            fragments: HashMap::new(),
            snapshot: None,
            render_cache: HashMap::new(),
        };
        proof {
            assert(r.fmap() =~= Map::<ContentId, ClientEntryV>::empty());
        }
        r
    }

    /// Abandon the session: clear everything, ready for a fresh resync.
    pub fn reset(&mut self)
        ensures
            final(self).wf(),
            final(self).fmap() == Map::<ContentId, ClientEntryV>::empty(),
            final(self).snapshot_v() is None,
    {
        self.fragments = HashMap::new();
        self.snapshot = None;
        self.render_cache = HashMap::new();
        proof {
            assert(self.fmap() =~= Map::<ContentId, ClientEntryV>::empty());
        }
    }

    /// How many fragments the client holds.
    pub fn fragment_count(&self) -> (r: usize)
        ensures
            r == self.fmap().dom().len(),
    {
        proof {
            assert(self.fmap().dom() =~= self.fragments@.dom());
        }
        self.fragments.len()
    }

    /// Whether the client holds this identity.
    pub fn contains(&self, id: ContentId) -> (r: bool)
        ensures
            r == self.fmap().contains_key(id),
    {
        self.fragments.contains_key(&id)
    }

    /// The fragment held under an identity.
    pub fn get(&self, id: ContentId) -> (r: Option<&Fragment>)
        ensures
            match r {
                Some(f) => self.fmap().contains_key(id) && f@ == self.fmap()[id].frag,
                None => !self.fmap().contains_key(id),
            },
    {
        match self.fragments.get(&id) {
            Some(e) => Some(&e.frag),
            None => None,
        }
    }

    /// Decode a delta stream and merge it: validate everything first, then
    /// insert every fragment module and, when the stream carries one, replace
    /// the snapshot pointer.  A rejected stream changes nothing; merging is
    /// idempotent per identity.
    pub fn merge_delta(&mut self, bytes: &Vec<u8>) -> (r: Result<(), ProtocolError>)
        requires
            old(self).wf(),
        ensures
            final(self).wf(),
            match r {
                Ok(()) => {
                    &&& crate::stream::p_stream_bytes(bytes@) matches Some(ds)
                    &&& merge_ok(old(self).fmap(), ds)
                    &&& final(self).fmap() == merged_map(old(self).fmap(), ds.modules)
                    &&& final(self).snapshot_v() == merged_snapshot(old(self).snapshot_v(), ds)
                    &&& final(self).render_cache == old(self).render_cache
                },
                Err(ProtocolError::Framing(_)) => {
                    &&& crate::stream::p_stream_bytes(bytes@) is None
                    &&& *final(self) == *old(self)
                },
                Err(ProtocolError::MalformedPayload) => {
                    &&& crate::stream::p_stream_bytes(bytes@) matches Some(ds)
                        && !payloads_parse(ds)
                    &&& *final(self) == *old(self)
                },
                Err(ProtocolError::IdMismatch) => {
                    &&& crate::stream::p_stream_bytes(bytes@) matches Some(ds) && payloads_parse(
                        ds,
                    ) && !ids_match(ds)
                    &&& *final(self) == *old(self)
                },
                Err(ProtocolError::Conflict) => {
                    &&& crate::stream::p_stream_bytes(bytes@) matches Some(ds) && payloads_parse(
                        ds,
                    ) && ids_match(ds) && !(no_dup_conflict(ds) && store_compatible(
                        old(self).fmap(),
                        ds,
                    ))
                    &&& *final(self) == *old(self)
                },
            },
    {
        let st = match ModuleStream::decode(bytes) {
            Ok(st) => st,
            Err(e) => {
                return Err(ProtocolError::Framing(e));
            },
        };
        let ds = st.checkout_owned();
        let ghost dsv = ds@;
        let nmods = ds.modules.len();
        // Validation: every payload must decode.
        let mut frags: Vec<Fragment> = Vec::new();
        let mut k: usize = 0;
        while k < nmods
            invariant
                k <= nmods,
                nmods == dsv.modules.len(),
                dsv == ds@,
                *self == *old(self),
                old(self).wf(),
                crate::stream::p_stream_bytes(bytes@) == Some(dsv),
                frags@.len() == k,
                forall|q: int|
                    0 <= q < k ==> p_frag((#[trigger] dsv.modules[q]).payload) == Some(
                        frags@[q]@,
                    ),
            decreases nmods - k,
        {
            match decode_fragment(&ds.modules[k].payload) {
                None => {
                    proof {
                        assert(!payloads_parse(dsv)) by {
                            if payloads_parse(dsv) {
                                assert(p_frag(dsv.modules[k as int].payload) is Some);
                            }
                        }
                    }
                    return Err(ProtocolError::MalformedPayload);
                },
                Some(f) => {
                    frags.push(f);
                },
            }
            k = k + 1;
        }
        let snap_new: Option<DocumentSnapshot> = match &ds.snapshot {
            Some(sm) => {
                match decode_snapshot(&sm.payload) {
                    None => {
                        proof {
                            assert(!payloads_parse(dsv));
                        }
                        return Err(ProtocolError::MalformedPayload);
                    },
                    Some(s) => Some(s),
                }
            },
            None => None,
        };
        proof {
            assert(payloads_parse(dsv));
        }
        // Validation: every identity must be the hash of its payload.
        let mut k: usize = 0;
        while k < nmods
            invariant
                k <= nmods,
                nmods == dsv.modules.len(),
                dsv == ds@,
                *self == *old(self),
                old(self).wf(),
                crate::stream::p_stream_bytes(bytes@) == Some(dsv),
                payloads_parse(dsv),
                forall|q: int|
                    0 <= q < k ==> (#[trigger] dsv.modules[q]).id == hash_words(
                        dsv.modules[q].payload,
                    ),
            decreases nmods - k,
        {
            let h = hash_words_exec(&ds.modules[k].payload);
            if h != ds.modules[k].id {
                proof {
                    assert(!ids_match(dsv)) by {
                        if ids_match(dsv) {
                            assert(dsv.modules[k as int].id == hash_words(
                                dsv.modules[k as int].payload,
                            ));
                        }
                    }
                }
                return Err(ProtocolError::IdMismatch);
            }
            k = k + 1;
        }
        match &ds.snapshot {
            Some(sm) => {
                let h = hash_words_exec(&sm.payload);
                if h != sm.id {
                    proof {
                        assert(!ids_match(dsv));
                    }
                    return Err(ProtocolError::IdMismatch);
                }
            },
            None => {},
        }
        proof {
            assert(ids_match(dsv));
        }
        // Validation: duplicates and the held store must carry these bytes.
        let mut k: usize = 0;
        while k < nmods
            invariant
                k <= nmods,
                nmods == dsv.modules.len(),
                dsv == ds@,
                *self == *old(self),
                old(self).wf(),
                crate::stream::p_stream_bytes(bytes@) == Some(dsv),
                payloads_parse(dsv),
                ids_match(dsv),
                forall|q1: int, q2: int|
                    0 <= q1 < k && 0 <= q2 <= q1 && (#[trigger] dsv.modules[q1]).id == (
                    #[trigger] dsv.modules[q2]).id ==> dsv.modules[q1].payload
                        == dsv.modules[q2].payload,
                forall|q: int|
                    0 <= q < k && old(self).fmap().contains_key((#[trigger] dsv.modules[q]).id)
                        ==> old(self).fmap()[dsv.modules[q].id].words == dsv.modules[q].payload,
            decreases nmods - k,
        {
            let mut j: usize = 0;
            while j < k
                invariant
                    j <= k,
                    k < nmods,
                    nmods == dsv.modules.len(),
                    dsv == ds@,
                    *self == *old(self),
                    old(self).wf(),
                    crate::stream::p_stream_bytes(bytes@) == Some(dsv),
                    payloads_parse(dsv),
                    ids_match(dsv),
                    forall|q2: int|
                        0 <= q2 < j && (#[trigger] dsv.modules[q2]).id == dsv.modules[k as int].id
                            ==> dsv.modules[q2].payload == dsv.modules[k as int].payload,
                decreases k - j,
            {
                if ds.modules[j].id == ds.modules[k].id && !words_eq(
                    &ds.modules[j].payload,
                    &ds.modules[k].payload,
                ) {
                    proof {
                        assert(!no_dup_conflict(dsv)) by {
                            if no_dup_conflict(dsv) {
                                assert(dsv.modules[j as int].payload
                                    == dsv.modules[k as int].payload);
                            }
                        }
                    }
                    return Err(ProtocolError::Conflict);
                }
                j = j + 1;
            }
            let mid = ds.modules[k].id;
            match self.fragments.get(&mid) {
                Some(e) => {
                    if !words_eq(&e.words, &ds.modules[k].payload) {
                        proof {
                            assert(!store_compatible(old(self).fmap(), dsv)) by {
                                if store_compatible(old(self).fmap(), dsv) {
                                    assert(old(self).fmap()[dsv.modules[k as int].id].words
                                        == dsv.modules[k as int].payload);
                                }
                            }
                        }
                        return Err(ProtocolError::Conflict);
                    }
                },
                None => {},
            }
            k = k + 1;
        }
        proof {
            assert(no_dup_conflict(dsv)) by {
                assert forall|k1: int, k2: int|
                    0 <= k1 < dsv.modules.len() && 0 <= k2 < dsv.modules.len() && (
                    #[trigger] dsv.modules[k1]).id == (#[trigger] dsv.modules[k2]).id implies
                    dsv.modules[k1].payload == dsv.modules[k2].payload by {
                    if k1 >= k2 {
                    } else {
                        assert(dsv.modules[k2].payload == dsv.modules[k1].payload);
                    }
                }
            }
            assert(store_compatible(old(self).fmap(), dsv));
            assert(merge_ok(old(self).fmap(), dsv));
        }
        // Apply: insert every module, in stream order, then the snapshot.
        let ghost old_map = old(self).fmap();
        let mut k: usize = 0;
        proof {
            assert(dsv.modules.subrange(0, 0) =~= Seq::<ModuleV>::empty());
            assert(self.fmap() =~= merged_map(old_map, dsv.modules.subrange(0, 0)));
        }
        while k < nmods
            invariant
                k <= nmods,
                nmods == dsv.modules.len(),
                dsv == ds@,
                old(self).wf(),
                self.wf(),
                payloads_parse(dsv),
                ids_match(dsv),
                no_dup_conflict(dsv),
                store_compatible(self.fmap(), dsv),
                frags@.len() == nmods - k,
                forall|q: int|
                    k <= q < nmods ==> p_frag((#[trigger] dsv.modules[q]).payload) == Some(
                        frags@[q - k]@,
                    ),
                self.fmap() == merged_map(old_map, dsv.modules.subrange(0, k as int)),
                self.snapshot == old(self).snapshot,
                self.render_cache == old(self).render_cache,
            decreases nmods - k,
        {
            let ghost pre_map = self.fmap();
            // Move the decoded fragment out of the scratch list.
            let f = frags.remove(0);
            proof {
                assert(p_frag(dsv.modules[k as int].payload) == Some(f@));
            }
            let payload = ds.modules[k].payload.clone();
            let mid = ds.modules[k].id;
            let e = ClientEntry { frag: f, words: payload };
            proof {
                assert(e@ == entry_of(dsv.modules[k as int]));
                lemma_p_frag_wf(dsv.modules[k as int].payload);
            }
            self.fragments.insert(mid, e);
            proof {
                assert(dsv.modules.subrange(0, k + 1).drop_last() =~= dsv.modules.subrange(
                    0,
                    k as int,
                ));
                assert(dsv.modules.subrange(0, k + 1).last() == dsv.modules[k as int]);
                assert(self.fmap() =~= pre_map.insert(mid, e@));
                assert(self.fmap() =~= merged_map(old_map, dsv.modules.subrange(0, k + 1)));
                // The invariant survives the insertion.
                assert forall|id2: ContentId| #[trigger] self.fmap().contains_key(id2) implies {
                    let en = self.fmap()[id2];
                    &&& p_frag(en.words) == Some(en.frag)
                    &&& en.frag.wf()
                    &&& id2 == hash_words(en.words)
                } by {
                    if id2 != mid {
                        assert(pre_map.contains_key(id2) && self.fmap()[id2] == pre_map[id2]);
                    }
                }
                assert forall|q: int|
                    0 <= q < dsv.modules.len() && self.fmap().contains_key(
                        (#[trigger] dsv.modules[q]).id,
                    ) implies self.fmap()[dsv.modules[q].id].words == dsv.modules[q].payload by {
                    if dsv.modules[q].id == mid {
                        assert(dsv.modules[q].payload == dsv.modules[k as int].payload);
                    } else {
                        assert(pre_map.contains_key(dsv.modules[q].id));
                    }
                }
                assert forall|id2: ContentId|
                    #[trigger] self.render_cache@.contains_key(id2) implies
                    self.fmap().contains_key(id2) && self.render_cache@[id2]@
                        == crate::render::leaf_markup(self.fmap()[id2].frag) by {
                    assert(pre_map.contains_key(id2));
                    if id2 == mid {
                        // The identity was already held with these very
                        // bytes, so the decoded fragment is unchanged.
                        assert(pre_map[mid].words == dsv.modules[k as int].payload);
                        assert(p_frag(pre_map[mid].words) == Some(pre_map[mid].frag));
                        assert(pre_map[mid].frag == self.fmap()[mid].frag);
                    } else {
                        assert(self.fmap()[id2] == pre_map[id2]);
                    }
                }
            }
            k = k + 1;
        }
        proof {
            assert(dsv.modules.subrange(0, nmods as int) =~= dsv.modules);
        }
        match snap_new {
            Some(s) => {
                proof {
                    match ds.snapshot {
                        Some(ref sm) => {
                            lemma_p_snapshot_wf(sm@.payload);
                        },
                        None => {
                            // Unreachable: a snapshot was decoded from it.
                            assert(false);
                        },
                    }
                }
                self.snapshot = Some(s);
            },
            None => {},
        }
        Ok(())
    }
}

} // verus!
