//! The server-side snapshot/delta engine.
//!
//! Per client session the engine keeps the fragments registered so far, the
//! horizon (identities this session has already been sent), and the last
//! snapshot it emitted.  Packing a newly compiled document walks the
//! fragment graph reachable from its pages and emits exactly the modules the
//! session still lacks, in store order — a deterministic function of the
//! engine state and the document.

use crate::codec::{
    content_id_of, frag_words, lemma_snapshot_roundtrip, snapshot_id_of, snapshot_words,
};
use crate::doc::TypstDocument;
use crate::encode::encode_snapshot;
use crate::ir::{ContentId, DocumentInfo, DocumentSnapshot, DocumentSnapshotV, PageEntry};
use crate::store::{
    closed_under, frag_of, has_id, has_id_below, idx_of, lemma_idx_of_unique,
    lemma_reach_idx_closed, lemma_reach_refs_closed, reach_idx, reach_refs, reach_roots,
    FragmentStore, StoreEntryV, StoreError,
};
use crate::stream::{DeltaSet, DeltaSetV, Module, ModuleKind, ModuleV};
use crate::wire::{hash_words_exec, words_eq};
use std::collections::HashSet;
use vstd::prelude::*;

verus! {

broadcast use vstd::std_specs::hash::group_hash_axioms, vstd::std_specs::vec::group_vec_axioms;

/// The page identities of a snapshot, in order.
pub open spec fn page_ids_of(pages: Seq<PageEntry>) -> Seq<ContentId> {
    pages.map_values(|p: PageEntry| p.id)
}

/// Every page placement is bounded.
pub open spec fn pages_bounded(pages: Seq<PageEntry>) -> bool {
    forall|k: int| 0 <= k < pages.len() ==> (#[trigger] pages[k]).frame.bounded()
}

/// Every page identity resolves in the store.
pub open spec fn pages_resolved(s: Seq<StoreEntryV>, pages: Seq<PageEntry>) -> bool {
    forall|k: int| 0 <= k < pages.len() ==> has_id(s, (#[trigger] pages[k]).id)
}

/// The store entries a pack emits: the reachable ones not yet within the
/// horizon, in store order.
pub open spec fn emit_entries(
    s: Seq<StoreEntryV>,
    rch: Set<ContentId>,
    horizon: Set<ContentId>,
) -> Seq<StoreEntryV> {
    s.filter(|e: StoreEntryV| rch.contains(e.id) && !horizon.contains(e.id))
}

/// The fragment modules wrapping a list of entries, all under one generation
/// number.
pub open spec fn modules_of(es: Seq<StoreEntryV>, generation: u64) -> Seq<ModuleV> {
    es.map_values(
        |e: StoreEntryV|
            ModuleV { id: e.id, seq: generation, kind: ModuleKind::Fragment, payload: e.words },
    )
}

/// The snapshot module of a snapshot.
pub open spec fn snapshot_module_of(snap: DocumentSnapshotV, generation: u64) -> ModuleV {
    ModuleV {
        id: snapshot_id_of(snap),
        seq: generation,
        kind: ModuleKind::Snapshot,
        payload: snapshot_words(snap),
    }
}

/// The delta set a pack over this state emits for this snapshot: the one
/// deterministic function everything below is specified by.
pub open spec fn delta_of(
    s: Seq<StoreEntryV>,
    horizon: Set<ContentId>,
    snap: DocumentSnapshotV,
    generation: u64,
) -> DeltaSetV {
    DeltaSetV {
        modules: modules_of(
            emit_entries(s, reach_roots(s, page_ids_of(snap.pages)), horizon),
            generation,
        ),
        snapshot: Some(snapshot_module_of(snap, generation)),
    }
}

/// Why a compiled document cannot be packed.
#[derive(Clone, Copy, Debug, PartialEq, Eq, Structural)]
pub enum EngineError {
    /// The document was compiled for the HTML target; the incremental vector
    /// pipeline serves paged documents.
    UnsupportedDocument,
    /// A page placement is out of coordinate bounds.
    InvalidGeometry,
    /// A page names a fragment that was never registered: an internal
    /// invariant violation of the compile pipeline.
    MissingPage,
}

/// One client session's server side.
#[derive(Debug)]
pub struct SnapshotEngine {
    /// Every fragment registered this session, shared by all its snapshots.
    pub store: FragmentStore,
    /// The identities this session has already been sent.
    pub horizon: HashSet<ContentId>,
    /// The last snapshot emitted to this session.
    pub current: Option<DocumentSnapshot>,
    /// Canonical words of the last emitted snapshot; empty when none.
    pub current_words: Vec<u64>,
    /// Generation number stamped on the next delta's modules.
    pub generation: u64,
}

impl SnapshotEngine {
    /// The view of the last emitted snapshot.
    pub open spec fn current_v(self) -> Option<DocumentSnapshotV> {
        match self.current {
            Some(s) => Some(s@),
            None => None,
        }
    }

    /// The engine invariant: the store is well-formed, the horizon only
    /// holds registered identities, and the remembered snapshot matches its
    /// cached words and resolves in the store.
    pub open spec fn wf(self) -> bool {
        &&& self.store.wf()
        &&& forall|id: ContentId| self.horizon@.contains(id) ==> has_id(self.store@, id)
        &&& match self.current {
            Some(s) => {
                &&& s@.wf()
                &&& self.current_words@ == snapshot_words(s@)
                &&& pages_resolved(self.store@, s@.pages)
            },
            None => self.current_words@.len() == 0,
        }
    }

    /// A fresh session: nothing registered, nothing sent.
    pub fn new() -> (r: SnapshotEngine)
        ensures
            r.wf(),
            r.store@ == Seq::<StoreEntryV>::empty(),
            r.horizon@ == Set::<ContentId>::empty(),
            r.current_v() is None,
            r.generation == 0,
    {
        let r = SnapshotEngine {
            store: FragmentStore::new(),
            horizon: HashSet::new(),
            current: None,
            current_words: Vec::new(),
            generation: 0,
        };
        r
    }

    /// Register one fragment of a compiled document with this session's
    /// store; children must already be registered.
    pub fn register_fragment(&mut self, frag: crate::ir::Fragment) -> (r: Result<
        ContentId,
        StoreError,
    >)
        requires
            old(self).wf(),
        ensures
            final(self).wf(),
            final(self).horizon == old(self).horizon,
            final(self).current == old(self).current,
            final(self).current_words == old(self).current_words,
            final(self).generation == old(self).generation,
            match r {
                Ok(id) => {
                    &&& frag@.wf()
                    &&& id == content_id_of(frag@)
                    &&& has_id(final(self).store@, id)
                    &&& frag_of(final(self).store@, id) == frag@
                    &&& if has_id(old(self).store@, id) {
                        final(self).store@ == old(self).store@
                    } else {
                        final(self).store@ == old(self).store@.push(
                            StoreEntryV { id, frag: frag@, words: frag_words(frag@) },
                        )
                    }
                },
                Err(StoreError::InvalidFragment) => !frag@.wf() && final(self).store@ == old(
                    self,
                ).store@,
                Err(StoreError::MissingChild) => {
                    &&& frag@.wf()
                    &&& final(self).store@ == old(self).store@
                    &&& exists|j: int|
                        0 <= j < frag@.refs().len() && !has_id(
                            old(self).store@,
                            #[trigger] frag@.refs()[j],
                        )
                },
                Err(StoreError::IdCollision) => {
                    &&& frag@.wf()
                    &&& final(self).store@ == old(self).store@
                    &&& has_id(old(self).store@, content_id_of(frag@))
                    &&& frag_of(old(self).store@, content_id_of(frag@)) != frag@
                },
            },
    {
        let r = self.store.register(frag);
        proof {
            let olds = old(self).store@;
            let news = self.store@;
            if news != olds {
                // One entry was appended; everything previously registered,
                // the horizon and the current snapshot still resolve.
                assert(news == olds.push(news.last()));
                assert forall|id: ContentId| self.horizon@.contains(id) implies has_id(
                    news,
                    id,
                ) by {
                    let w = idx_of(olds, id);
                    assert(has_id(olds, id));
                    assert(0 <= w < olds.len() && olds[w].id == id);
                    assert(news[w] == olds[w]);
                }
                match self.current {
                    Some(ref s) => {
                        assert forall|k: int| 0 <= k < s@.pages.len() implies has_id(
                            news,
                            (#[trigger] s@.pages[k]).id,
                        ) by {
                            let w = idx_of(olds, s@.pages[k].id);
                            assert(has_id(olds, s@.pages[k].id));
                            assert(0 <= w < olds.len() && olds[w].id == s@.pages[k].id);
                            assert(news[w] == olds[w]);
                        }
                    },
                    None => {},
                }
            }
        }
        r
    }
}

/// Mark everything reachable from the entry at position `k` into `seen`.
/// Skipping already-seen entries is sound because the seen-set is kept closed
/// under reachability.
fn mark(store: &FragmentStore, k: usize, seen: &mut HashSet<ContentId>)
    requires
        store.wf(),
        k < store@.len(),
        closed_under(store@, old(seen)@),
    ensures
        final(seen)@ == old(seen)@.union(reach_idx(store@, k as int)),
        closed_under(store@, final(seen)@),
    decreases k,
{
    let id = store.entries[k].id;
    proof {
        assert(store@[k as int].id == id);
    }
    if seen.contains(&id) {
        proof {
            assert(reach_idx(store@, k as int).subset_of(old(seen)@));
            assert(old(seen)@.union(reach_idx(store@, k as int)) =~= old(seen)@);
        }
        return ;
    }
    let refs = store.entries[k].frag.refs();
    let ghost s = store@;
    let ghost rs = s[k as int].frag.refs();
    proof {
        assert(refs@ == rs);
    }
    let mut j: usize = 0;
    proof {
        assert(rs.skip(0) =~= rs);
    }
    while j < refs.len()
        invariant
            j <= refs@.len(),
            refs@ == rs,
            store.wf(),
            s == store@,
            k < s.len(),
            rs == s[k as int].frag.refs(),
            closed_under(s, seen@),
            old(seen)@.subset_of(seen@),
            seen@.union(reach_refs(s, rs.skip(j as int), k as int)) == old(seen)@.union(
                reach_refs(s, rs, k as int),
            ),
        decreases refs@.len() - j,
    {
        let r = refs[j];
        let pos = match store.position(r) {
            Some(p) => p,
            None => {
                // Unreachable: the store invariant resolves every reference.
                proof {
                    assert(has_id_below(s, k as int, rs[j as int]));
                    assert(has_id(s, rs[j as int]));
                    assert(false);
                }
                return ;
            },
        };
        proof {
            // The reference resolves strictly below `k`.
            assert(has_id_below(s, k as int, rs[j as int]));
            let jj = j as int;
            let w = choose|w: int| 0 <= w < k as int && w < s.len() && (#[trigger] s[w]).id == rs[jj];
            lemma_idx_of_unique(s, w);
            assert(idx_of(s, rs[j as int]) == w);
            assert(pos == w);
        }
        let ghost seen_before = seen@;
        mark(store, pos, seen);
        proof {
            let tail = rs.skip(j as int);
            assert(tail[0] == rs[j as int]);
            assert(tail.drop_first() =~= rs.skip(j + 1));
            assert(reach_refs(s, tail, k as int) == reach_idx(s, idx_of(s, rs[j as int])).union(
                reach_refs(s, rs.skip(j + 1), k as int),
            ));
            assert(seen@.union(reach_refs(s, rs.skip(j + 1), k as int)) =~= seen_before.union(
                reach_refs(s, tail, k as int),
            ));
        }
        j = j + 1;
    }
    proof {
        assert(rs.skip(rs.len() as int) =~= Seq::<ContentId>::empty());
        assert(seen@.union(reach_refs(s, rs.skip(rs.len() as int), k as int)) =~= seen@);
    }
    seen.insert(id);
    proof {
        assert(seen@ =~= old(seen)@.union(reach_idx(s, k as int)));
        // The enlarged set stays closed: everything newly added lies in the
        // reach-set of `k`, which is itself closed.
        lemma_reach_idx_closed(s, k as int);
        assert forall|k2: int|
            0 <= k2 < s.len() && seen@.contains((#[trigger] s[k2]).id) implies reach_idx(
            s,
            k2,
        ).subset_of(seen@) by {
            if old(seen)@.contains(s[k2].id) {
                assert(reach_idx(s, k2).subset_of(old(seen)@));
            } else {
                assert(reach_idx(s, k as int).contains(s[k2].id));
                lemma_idx_of_unique(s, k2);
                assert(reach_idx(s, idx_of(s, s[k2].id)).subset_of(reach_idx(s, k as int)));
            }
        }
    }
}

/// Appending an entry to the scanned prefix extends the emitted list by that
/// entry exactly when it is reachable and outside the horizon.
pub proof fn lemma_emit_push(
    s: Seq<StoreEntryV>,
    rch: Set<ContentId>,
    hz: Set<ContentId>,
    e: StoreEntryV,
)
    ensures
        emit_entries(s.push(e), rch, hz) == if rch.contains(e.id) && !hz.contains(e.id) {
            emit_entries(s, rch, hz).push(e)
        } else {
            emit_entries(s, rch, hz)
        },
{
    reveal(Seq::filter);
    let a = s.push(e);
    assert(a.drop_last() =~= s);
    assert(a.last() == e);
}

/// Every emitted entry is reachable and outside the horizon, and every
/// reachable stored identity outside the horizon is emitted.
pub proof fn lemma_emit_ids(s: Seq<StoreEntryV>, rch: Set<ContentId>, hz: Set<ContentId>)
    ensures
        forall|k: int|
            0 <= k < emit_entries(s, rch, hz).len() ==> {
                let e = #[trigger] emit_entries(s, rch, hz)[k];
                &&& rch.contains(e.id)
                &&& !hz.contains(e.id)
            },
        forall|k: int|
            0 <= k < s.len() && rch.contains((#[trigger] s[k]).id) && !hz.contains(s[k].id)
                ==> emit_entries(s, rch, hz).contains(s[k]),
    decreases s.len(),
{
    reveal(Seq::filter);
    if s.len() > 0 {
        let pre = s.drop_last();
        lemma_emit_ids(pre, rch, hz);
        lemma_emit_push(pre, rch, hz, s.last());
        assert(pre.push(s.last()) =~= s);
        assert forall|k: int|
            0 <= k < s.len() && rch.contains((#[trigger] s[k]).id) && !hz.contains(s[k].id)
                implies emit_entries(s, rch, hz).contains(s[k]) by {
            if k < s.len() - 1 {
                assert(pre[k] == s[k]);
                assert(emit_entries(pre, rch, hz).contains(s[k]));
                let w = choose|w: int|
                    0 <= w < emit_entries(pre, rch, hz).len() && emit_entries(pre, rch, hz)[w]
                        == s[k];
                assert(emit_entries(s, rch, hz)[w] == s[k]);
            } else {
                let es = emit_entries(s, rch, hz);
                assert(es.last() == s[k]);
            }
        }
    }
}

/// Mark everything reachable from a page list.
fn mark_roots(store: &FragmentStore, pages: &Vec<PageEntry>) -> (seen: HashSet<ContentId>)
    requires
        store.wf(),
        pages_resolved(store@, pages@),
    ensures
        seen@ == reach_roots(store@, page_ids_of(pages@)),
        closed_under(store@, seen@),
{
    let ghost s = store@;
    let ghost roots = page_ids_of(pages@);
    let mut seen: HashSet<ContentId> = HashSet::new();
    let mut k: usize = 0;
    proof {
        assert(roots.skip(0) =~= roots);
        assert(seen@ =~= Set::<ContentId>::empty());
        assert(seen@.union(reach_refs(s, roots.skip(0), s.len() as int)) =~= reach_refs(
            s,
            roots,
            s.len() as int,
        ));
    }
    while k < pages.len()
        invariant
            k <= pages@.len(),
            store.wf(),
            s == store@,
            roots == page_ids_of(pages@),
            pages_resolved(s, pages@),
            closed_under(s, seen@),
            seen@.union(reach_refs(s, roots.skip(k as int), s.len() as int)) == reach_refs(
                s,
                roots,
                s.len() as int,
            ),
        decreases pages@.len() - k,
    {
        let pid = pages[k].id;
        proof {
            assert(has_id(s, pages@[k as int].id));
        }
        let pos = match store.position(pid) {
            Some(p) => p,
            None => {
                // Unreachable: every page was checked to resolve.
                proof {
                    assert(false);
                }
                return seen;
            },
        };
        let ghost seen_before = seen@;
        mark(store, pos, &mut seen);
        proof {
            let tail = roots.skip(k as int);
            assert(tail[0] == roots[k as int]);
            assert(roots[k as int] == pages@[k as int].id);
            assert(tail.drop_first() =~= roots.skip(k + 1));
            assert(has_id_below(s, s.len() as int, pid)) by {
                let w = idx_of(s, pid);
                assert(0 <= w < s.len() && s[w].id == pid);
            }
            assert(0 <= idx_of(s, pid) < s.len() as int);
            assert(pos == idx_of(s, pid));
            assert(reach_refs(s, tail, s.len() as int) == reach_idx(s, idx_of(s, pid)).union(
                reach_refs(s, roots.skip(k + 1), s.len() as int),
            ));
            assert(seen@.union(reach_refs(s, roots.skip(k + 1), s.len() as int))
                =~= seen_before.union(reach_refs(s, tail, s.len() as int)));
        }
        k = k + 1;
    }
    proof {
        assert(roots.skip(roots.len() as int) =~= Seq::<ContentId>::empty());
        assert(seen@.union(reach_refs(s, roots.skip(roots.len() as int), s.len() as int))
            =~= seen@);
    }
    seen
}

/// Wrap the reachable, not-yet-sent entries into modules, in store order.
fn collect_modules(
    store: &FragmentStore,
    seen: &HashSet<ContentId>,
    horizon: &HashSet<ContentId>,
    generation: u64,
) -> (r: Vec<Module>)
    requires
        store.wf(),
    ensures
        r@.map_values(|m: Module| m@) == modules_of(
            emit_entries(store@, seen@, horizon@),
            generation,
        ),
{
    let ghost s = store@;
    let mut modules: Vec<Module> = Vec::new();
    let n = store.entries.len();
    let mut k: usize = 0;
    proof {
        assert(s.subrange(0, 0) =~= Seq::<StoreEntryV>::empty());
    }
    while k < n
        invariant
            k <= n,
            n == s.len(),
            s == store@,
            store.wf(),
            modules@.len() == emit_entries(s.subrange(0, k as int), seen@, horizon@).len(),
            forall|q: int|
                0 <= q < modules@.len() ==> #[trigger] modules@[q]@ == (ModuleV {
                    id: emit_entries(s.subrange(0, k as int), seen@, horizon@)[q].id,
                    seq: generation,
                    kind: ModuleKind::Fragment,
                    payload: emit_entries(s.subrange(0, k as int), seen@, horizon@)[q].words,
                }),
        decreases n - k,
    {
        let e = &store.entries[k];
        proof {
            assert(s[k as int] == store.entries@[k as int]@);
        }
        let ghost pre = s.subrange(0, k as int);
        let wanted = seen.contains(&e.id) && !horizon.contains(&e.id);
        if wanted {
            let payload = e.words.clone();
            let m = Module {
                id: e.id,
                seq: generation,
                kind: ModuleKind::Fragment,
                payload,
            };
            modules.push(m);
        }
        proof {
            lemma_emit_push(pre, seen@, horizon@, s[k as int]);
            assert(s.subrange(0, k + 1) =~= pre.push(s[k as int]));
        }
        k = k + 1;
    }
    proof {
        assert(s.subrange(0, s.len() as int) =~= s);
        let es = emit_entries(s, seen@, horizon@);
        assert(modules@.map_values(|m: Module| m@) =~= modules_of(es, generation)) by {
            assert(modules@.map_values(|m: Module| m@).len() == es.len());
            assert forall|q: int| 0 <= q < es.len() implies modules@.map_values(|m: Module| m@)[q]
                == modules_of(es, generation)[q] by {
                assert(modules@[q]@ == ModuleV {
                    id: es[q].id,
                    seq: generation,
                    kind: ModuleKind::Fragment,
                    payload: es[q].words,
                });
            }
        }
    }
    modules
}

/// Add every marked identity to the horizon.
fn extend_horizon(store: &FragmentStore, seen: &HashSet<ContentId>, horizon: &mut HashSet<
    ContentId,
>)
    requires
        store.wf(),
        forall|id: ContentId| #[trigger] seen@.contains(id) ==> has_id(store@, id),
    ensures
        final(horizon)@ == old(horizon)@.union(seen@),
{
    let ghost s = store@;
    let n = store.entries.len();
    let mut k: usize = 0;
    while k < n
        invariant
            k <= n,
            n == s.len(),
            s == store@,
            store.wf(),
            forall|id: ContentId| #[trigger] seen@.contains(id) ==> has_id(s, id),
            forall|id: ContentId|
                #[trigger] horizon@.contains(id) <==> (old(horizon)@.contains(id) || (
                seen@.contains(id) && has_id_below(s, k as int, id))),
        decreases n - k,
    {
        let e = &store.entries[k];
        proof {
            assert(s[k as int] == store.entries@[k as int]@);
        }
        let ghost hz_before = horizon@;
        if seen.contains(&e.id) {
            horizon.insert(e.id);
        }
        proof {
            assert forall|id: ContentId| #[trigger] horizon@.contains(id) implies (old(
                horizon,
            )@.contains(id) || (seen@.contains(id) && has_id_below(s, k + 1, id))) by {
                if !hz_before.contains(id) {
                    assert(id == s[k as int].id);
                    assert(has_id_below(s, k + 1, id));
                }
            }
            assert forall|id: ContentId| (old(horizon)@.contains(id) || (seen@.contains(id)
                && has_id_below(s, k + 1, id))) implies #[trigger] horizon@.contains(id) by {
                if !old(horizon)@.contains(id) && seen@.contains(id) && has_id_below(
                    s,
                    k + 1,
                    id,
                ) && !has_id_below(s, k as int, id) {
                    let w = choose|w: int|
                        0 <= w < k + 1 && w < s.len() && (#[trigger] s[w]).id == id;
                    assert(w == k as int);
                    assert(s[k as int].id == id);
                }
            }
        }
        k = k + 1;
    }
    proof {
        assert forall|id: ContentId| #[trigger] seen@.contains(id) implies has_id_below(
            s,
            s.len() as int,
            id,
        ) by {
            let w = idx_of(s, id);
            assert(has_id(s, id));
            assert(0 <= w < s.len() && s[w].id == id);
        }
        assert(horizon@ =~= old(horizon)@.union(seen@));
    }
}

impl SnapshotEngine {
    /// Compute the delta that brings this session from its horizon to the
    /// newly compiled document: every reachable module the session was never
    /// sent, plus the new snapshot module — except when the snapshot is
    /// identical to the previous one, in which case the empty delta set
    /// signals "no visual change".  Fails on a document compiled for another
    /// target, on out-of-bounds page geometry, and on a page naming an
    /// unregistered fragment; a failed pack changes nothing.
    pub fn pack_delta(&mut self, doc: &TypstDocument) -> (r: Result<DeltaSet, EngineError>)
        requires
            old(self).wf(),
        ensures
            final(self).wf(),
            final(self).store@ == old(self).store@,
            match r {
                Ok(ds) => ({
                    &&& doc@ matches crate::doc::TypstDocumentV::Paged(p)
                    &&& pages_bounded(p.pages)
                    &&& pages_resolved(old(self).store@, p.pages)
                    &&& ({
                        let snap = DocumentSnapshotV { info: p.info, pages: p.pages };
                        if old(self).current_v() == Some(snap) {
                            &&& ds@.modules.len() == 0
                            &&& ds@.snapshot is None
                            &&& final(self).horizon@ == old(self).horizon@
                            &&& final(self).current == old(self).current
                            &&& final(self).generation == old(self).generation
                        } else {
                            &&& ds@ == delta_of(
                                old(self).store@,
                                old(self).horizon@,
                                snap,
                                old(self).generation,
                            )
                            &&& final(self).horizon@ == old(self).horizon@.union(
                                reach_roots(old(self).store@, page_ids_of(p.pages)),
                            )
                            &&& final(self).current_v() == Some(snap)
                            &&& final(self).generation
                                == vstd::wrapping::u64_specs::wrapping_add(
                                old(self).generation,
                                1,
                            )
                        }
                    })
                }),
                Err(EngineError::UnsupportedDocument) => {
                    &&& doc@ is Html
                    &&& *final(self) == *old(self)
                },
                Err(EngineError::InvalidGeometry) => {
                    &&& doc@ matches crate::doc::TypstDocumentV::Paged(p) && !pages_bounded(
                        p.pages,
                    )
                    &&& *final(self) == *old(self)
                },
                Err(EngineError::MissingPage) => {
                    &&& doc@ matches crate::doc::TypstDocumentV::Paged(p) && pages_bounded(p.pages)
                        && !pages_resolved(old(self).store@, p.pages)
                    &&& *final(self) == *old(self)
                },
            },
    {
        let paged = match doc {
            TypstDocument::Paged(p) => p,
            TypstDocument::Html(_) => {
                return Err(EngineError::UnsupportedDocument);
            },
        };
        let npages = paged.pages.len();
        // Geometry of every page placement must be storable.
        let mut k: usize = 0;
        while k < npages
            invariant
                k <= npages,
                npages == paged.pages@.len(),
                doc@ == crate::doc::TypstDocumentV::Paged(paged@),
                *self == *old(self),
                old(self).wf(),
                forall|q: int| 0 <= q < k ==> (#[trigger] paged.pages@[q]).frame.bounded(),
            decreases npages - k,
        {
            if !paged.pages[k].frame.check_bounded() {
                proof {
                    assert(!(pages_bounded(paged.pages@))) by {
                        if pages_bounded(paged.pages@) {
                            assert(paged.pages@[k as int].frame.bounded());
                        }
                    }
                }
                return Err(EngineError::InvalidGeometry);
            }
            k = k + 1;
        }
        // Every page must name a registered fragment.
        let mut k: usize = 0;
        while k < npages
            invariant
                k <= npages,
                npages == paged.pages@.len(),
                doc@ == crate::doc::TypstDocumentV::Paged(paged@),
                *self == *old(self),
                old(self).wf(),
                pages_bounded(paged.pages@),
                forall|q: int| 0 <= q < k ==> has_id(self.store@, (#[trigger] paged.pages@[q]).id),
            decreases npages - k,
        {
            if !self.store.contains(paged.pages[k].id) {
                proof {
                    assert(!(pages_resolved(old(self).store@, paged.pages@))) by {
                        if pages_resolved(old(self).store@, paged.pages@) {
                            assert(has_id(old(self).store@, paged.pages@[k as int].id));
                        }
                    }
                }
                return Err(EngineError::MissingPage);
            }
            k = k + 1;
        }
        // The new snapshot and its canonical words.
        let info = DocumentInfo {
            title: paged.info.title.clone(),
            language: paged.info.language.clone(),
        };
        let pages = paged.pages.clone();
        let snapshot = DocumentSnapshot { info, pages };
        let ghost snap = snapshot@;
        proof {
            assert(snap == DocumentSnapshotV { info: paged.info@, pages: paged.pages@ });
            assert(snap.wf()) by {
                assert(snapshot.pages@.len() == vstd::std_specs::vec::spec_vec_len(
                    &snapshot.pages,
                ));
                assert(snapshot.info.title@.len() == vstd::std_specs::vec::spec_vec_len(
                    &snapshot.info.title,
                ));
                assert(snapshot.info.language@.len() == vstd::std_specs::vec::spec_vec_len(
                    &snapshot.info.language,
                ));
            }
        }
        let words = encode_snapshot(&snapshot);
        // An unchanged snapshot means no visual change: the empty delta.
        let same = match &self.current {
            Some(_) => words_eq(&self.current_words, &words),
            None => false,
        };
        if same {
            proof {
                match self.current {
                    Some(ref cur) => {
                        lemma_snapshot_roundtrip(cur@);
                        lemma_snapshot_roundtrip(snap);
                        assert(cur@ == snap);
                    },
                    None => {
                        // Unreachable: the words compared equal to a held
                        // snapshot's words.
                        assert(false);
                    },
                }
            }
            return Ok(DeltaSet { modules: Vec::new(), snapshot: None });
        }
        proof {
            match self.current {
                Some(ref cur) => {
                    if cur@ == snap {
                        assert(self.current_words@ == snapshot_words(snap));
                    }
                },
                None => {},
            }
            assert(old(self).current_v() != Some(snap));
        }
        // Mark, emit, and advance the horizon.
        let seen = mark_roots(&self.store, &paged.pages);
        let modules = collect_modules(&self.store, &seen, &self.horizon, self.generation);
        proof {
            lemma_reach_refs_closed(
                self.store@,
                page_ids_of(paged.pages@),
                self.store@.len() as int,
            );
        }
        extend_horizon(&self.store, &seen, &mut self.horizon);
        let smod_id = hash_words_exec(&words);
        let payload_words = words.clone();
        let smod = Module {
            id: smod_id,
            seq: self.generation,
            kind: ModuleKind::Snapshot,
            payload: payload_words,
        };
        self.current = Some(snapshot);
        self.current_words = words;
        self.generation = self.generation.wrapping_add(1);
        let ds = DeltaSet { modules, snapshot: Some(smod) };
        proof {
            let s = old(self).store@;
            assert(ds@.modules =~= modules_of(
                emit_entries(s, reach_roots(s, page_ids_of(snap.pages)), old(self).horizon@),
                old(self).generation,
            ));
            assert(ds@ =~~= delta_of(s, old(self).horizon@, snap, old(self).generation));
            // The engine invariant survives: the horizon gained only stored
            // identities and the new snapshot resolves.
            assert forall|id: ContentId| self.horizon@.contains(id) implies has_id(
                self.store@,
                id,
            ) by {
                if !old(self).horizon@.contains(id) {
                    assert(reach_roots(s, page_ids_of(paged.pages@)).contains(id));
                }
            }
        }
        Ok(ds)
    }

    /// Produce a delta set that reconstructs the current snapshot from
    /// nothing: every reachable module, for first contact or resync.  The
    /// horizon afterwards is exactly what this pack transmitted.
    pub fn pack_current(&mut self) -> (r: DeltaSet)
        requires
            old(self).wf(),
        ensures
            final(self).wf(),
            final(self).store@ == old(self).store@,
            final(self).current == old(self).current,
            final(self).current_words == old(self).current_words,
            match old(self).current_v() {
                None => {
                    &&& r@.modules.len() == 0
                    &&& r@.snapshot is None
                    &&& *final(self) == *old(self)
                },
                Some(snap) => {
                    &&& r@ == delta_of(
                        old(self).store@,
                        Set::empty(),
                        snap,
                        old(self).generation,
                    )
                    &&& final(self).horizon@ == reach_roots(
                        old(self).store@,
                        page_ids_of(snap.pages),
                    )
                    &&& final(self).generation == vstd::wrapping::u64_specs::wrapping_add(
                        old(self).generation,
                        1,
                    )
                },
            },
    {
        let pages = match &self.current {
            Some(cur) => cur.pages.clone(),
            None => {
                return DeltaSet { modules: Vec::new(), snapshot: None };
            },
        };
        proof {
            match self.current {
                Some(ref cur) => {
                    assert(pages@ == cur@.pages);
                },
                None => {
                    // Unreachable: the page list was cloned out of it.
                    assert(false);
                },
            }
        }
        let seen = mark_roots(&self.store, &pages);
        let empty_hz: HashSet<ContentId> = HashSet::new();
        let modules = collect_modules(&self.store, &seen, &empty_hz, self.generation);
        proof {
            lemma_reach_refs_closed(self.store@, page_ids_of(pages@), self.store@.len() as int);
        }
        self.horizon = HashSet::new();
        extend_horizon(&self.store, &seen, &mut self.horizon);
        let words = self.current_words.clone();
        let smod_id = hash_words_exec(&words);
        let smod = Module {
            id: smod_id,
            seq: self.generation,
            kind: ModuleKind::Snapshot,
            payload: words,
        };
        self.generation = self.generation.wrapping_add(1);
        let ds = DeltaSet { modules, snapshot: Some(smod) };
        proof {
            let s = old(self).store@;
            let snap = old(self).current_v()->0;
            assert(empty_hz@ =~= Set::<ContentId>::empty());
            assert(self.horizon@ =~= reach_roots(s, page_ids_of(snap.pages)));
            assert(ds@.modules =~= modules_of(
                emit_entries(s, reach_roots(s, page_ids_of(snap.pages)), Set::empty()),
                old(self).generation,
            ));
            assert(ds@ =~~= delta_of(s, Set::empty(), snap, old(self).generation));
            assert forall|id: ContentId| self.horizon@.contains(id) implies has_id(
                self.store@,
                id,
            ) by {
                assert(reach_roots(s, page_ids_of(snap.pages)).contains(id));
            }
        }
        ds
    }
}

} // verus!
