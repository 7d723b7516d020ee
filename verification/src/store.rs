//! The server-side content-addressed fragment store.
//!
//! Fragments are appended in creation order and may only reference fragments
//! already present, so the reference graph is acyclic by construction: every
//! edge points to a strictly earlier entry.  The store keeps, per fragment,
//! its canonical word encoding and its content identity, and detects the one
//! thing content addressing cannot rule out by itself: two different
//! fragments hashing to one identity.

use crate::codec::{content_id_of, frag_words, lemma_frag_roundtrip};
use crate::encode::encode_fragment;
use crate::ir::{ContentId, Fragment, FragmentV};
use crate::wire::{hash_words, hash_words_exec, words_eq};
use std::collections::HashMap;
use vstd::prelude::*;

verus! {

broadcast use vstd::std_specs::hash::group_hash_axioms, vstd::std_specs::vec::group_vec_axioms;

/// One stored fragment.
#[derive(Debug)]
pub struct StoreEntry {
    pub id: ContentId,
    pub frag: Fragment,
    pub words: Vec<u64>,
}

/// Mathematical image of a [`StoreEntry`].
pub struct StoreEntryV {
    pub id: ContentId,
    pub frag: FragmentV,
    pub words: Seq<u64>,
}

impl View for StoreEntry {
    type V = StoreEntryV;

    open spec fn view(&self) -> StoreEntryV {
        StoreEntryV { id: self.id, frag: self.frag@, words: self.words@ }
    }
}

/// Whether some entry carries this identity.
pub open spec fn has_id(s: Seq<StoreEntryV>, id: ContentId) -> bool {
    exists|k: int| 0 <= k < s.len() && (#[trigger] s[k]).id == id
}

/// The position of the entry carrying this identity.
pub open spec fn idx_of(s: Seq<StoreEntryV>, id: ContentId) -> int {
    choose|k: int| 0 <= k < s.len() && (#[trigger] s[k]).id == id
}

/// The fragment stored under this identity.
pub open spec fn frag_of(s: Seq<StoreEntryV>, id: ContentId) -> FragmentV {
    s[idx_of(s, id)].frag
}

/// Whether some entry strictly before `bound` carries this identity.
pub open spec fn has_id_below(s: Seq<StoreEntryV>, bound: int, id: ContentId) -> bool {
    exists|k: int| 0 <= k < bound && k < s.len() && (#[trigger] s[k]).id == id
}

/// The invariant of the store sequence: entries carry their own canonical
/// encoding and identity, identities are unique, and every reference points
/// strictly downward.
pub open spec fn store_inv(s: Seq<StoreEntryV>) -> bool {
    &&& forall|k: int|
        0 <= k < s.len() ==> {
            let e = #[trigger] s[k];
            &&& e.frag.wf()
            &&& e.words == frag_words(e.frag)
            &&& e.id == hash_words(e.words)
        }
    &&& forall|k1: int, k2: int|
        0 <= k1 < k2 < s.len() ==> (#[trigger] s[k1]).id != (#[trigger] s[k2]).id
    &&& forall|k: int, j: int|
        0 <= k < s.len() && 0 <= j < s[k].frag.refs().len() ==> has_id_below(
            s,
            k,
            #[trigger] s[k].frag.refs()[j],
        )
}

/// With unique identities, the chosen index of a stored identity is the
/// entry's own position.
pub proof fn lemma_idx_of_unique(s: Seq<StoreEntryV>, k: int)
    requires
        store_inv(s),
        0 <= k < s.len(),
    ensures
        idx_of(s, s[k].id) == k,
        has_id(s, s[k].id),
{
    assert(has_id(s, s[k].id));
    let k2 = idx_of(s, s[k].id);
    if k2 != k {
        if k2 < k {
            assert(s[k2].id != s[k].id);
        } else {
            assert(s[k].id != s[k2].id);
        }
    }
}

// ---------------------------------------------------------------------------
// Reachability over the store order.
//
// Because references point strictly downward, reachability can recurse on
// entry positions.  The definitions guard every recursive step by the
// position bound, so they are total on any sequence; on a store satisfying
// the invariant the guards are always true.
// ---------------------------------------------------------------------------

/// All identities reachable from the entry at position `k`, itself included.
pub open spec fn reach_idx(s: Seq<StoreEntryV>, k: int) -> Set<ContentId>
    recommends
        0 <= k < s.len(),
    decreases k, 1int, 0int,
{
    if 0 <= k < s.len() {
        set![s[k].id].union(reach_refs(s, s[k].frag.refs(), k))
    } else {
        Set::empty()
    }
}

/// All identities reachable from the listed references, resolved at positions
/// strictly below `bound`.
pub open spec fn reach_refs(s: Seq<StoreEntryV>, rs: Seq<ContentId>, bound: int) -> Set<ContentId>
    decreases bound, 0int, rs.len(),
{
    if rs.len() == 0 || bound < 0 {
        Set::empty()
    } else {
        let here = if has_id_below(s, bound, rs[0]) && 0 <= idx_of(s, rs[0]) < bound {
            reach_idx(s, idx_of(s, rs[0]))
        } else {
            Set::empty()
        };
        here.union(reach_refs(s, rs.drop_first(), bound))
    }
}

/// The identities reachable from a root list over the whole store.
pub open spec fn reach_roots(s: Seq<StoreEntryV>, roots: Seq<ContentId>) -> Set<ContentId> {
    reach_refs(s, roots, s.len() as int)
}

/// A seen-set is closed when it already contains everything reachable from
/// each of its members.
pub open spec fn closed_under(s: Seq<StoreEntryV>, seen: Set<ContentId>) -> bool {
    forall|k: int|
        0 <= k < s.len() && seen.contains((#[trigger] s[k]).id) ==> reach_idx(s, k).subset_of(seen)
}

/// Reachable identities are stored identities, and reach-sets are closed:
/// whatever is reachable from a member of a reach-set is in the reach-set.
pub proof fn lemma_reach_idx_closed(s: Seq<StoreEntryV>, k: int)
    requires
        store_inv(s),
        0 <= k < s.len(),
    ensures
        forall|id: ContentId| #[trigger] reach_idx(s, k).contains(id) ==> has_id(s, id),
        forall|id: ContentId|
            #[trigger] reach_idx(s, k).contains(id) ==> reach_idx(s, idx_of(s, id)).subset_of(
                reach_idx(s, k),
            ),
    decreases k, 1int, 0int,
{
    lemma_reach_refs_closed(s, s[k].frag.refs(), k);
    lemma_idx_of_unique(s, k);
    assert forall|id: ContentId| #[trigger] reach_idx(s, k).contains(id) implies has_id(s, id)
        && reach_idx(s, idx_of(s, id)).subset_of(reach_idx(s, k)) by {
        if id == s[k].id {
            assert(idx_of(s, id) == k);
        } else {
            assert(reach_refs(s, s[k].frag.refs(), k).contains(id));
        }
    }
}

pub proof fn lemma_reach_refs_closed(s: Seq<StoreEntryV>, rs: Seq<ContentId>, bound: int)
    requires
        store_inv(s),
        bound <= s.len(),
    ensures
        forall|id: ContentId| #[trigger] reach_refs(s, rs, bound).contains(id) ==> has_id(s, id),
        forall|id: ContentId|
            #[trigger] reach_refs(s, rs, bound).contains(id) ==> reach_idx(
                s,
                idx_of(s, id),
            ).subset_of(reach_refs(s, rs, bound)),
    decreases bound, 0int, rs.len(),
{
    if rs.len() == 0 || bound < 0 {
    } else {
        lemma_reach_refs_closed(s, rs.drop_first(), bound);
        if has_id_below(s, bound, rs[0]) && 0 <= idx_of(s, rs[0]) < bound {
            lemma_reach_idx_closed(s, idx_of(s, rs[0]));
        }
        assert forall|id: ContentId| #[trigger] reach_refs(s, rs, bound).contains(id) implies
            has_id(s, id) && reach_idx(s, idx_of(s, id)).subset_of(
            reach_refs(s, rs, bound),
        ) by {
            if has_id_below(s, bound, rs[0]) && 0 <= idx_of(s, rs[0]) < bound && reach_idx(
                s,
                idx_of(s, rs[0]),
            ).contains(id) {
                assert(reach_idx(s, idx_of(s, id)).subset_of(reach_idx(s, idx_of(s, rs[0]))));
            } else {
                assert(reach_refs(s, rs.drop_first(), bound).contains(id));
            }
        }
    }
}

// ---------------------------------------------------------------------------
// The store itself.
// ---------------------------------------------------------------------------

/// Why a fragment cannot be registered.
#[derive(Clone, Copy, Debug, PartialEq, Eq, Structural)]
pub enum StoreError {
    /// A coordinate of the fragment is out of bounds.
    InvalidFragment,
    /// The fragment references an identity the store does not hold yet.
    MissingChild,
    /// A different fragment already owns this content identity: within one
    /// session an identity can never stand for two contents.
    IdCollision,
}

/// Append-only content-addressed storage: the arena every compiled document
/// of a session shares its fragments through.
#[derive(Debug)]
pub struct FragmentStore {
    /// The entries, in registration order.
    pub entries: Vec<StoreEntry>,
    /// Identity to position.
    pub index: HashMap<u64, usize>,
}

impl View for FragmentStore {
    type V = Seq<StoreEntryV>;

    open spec fn view(&self) -> Seq<StoreEntryV> {
        self.entries@.map_values(|e: StoreEntry| e@)
    }
}

impl FragmentStore {
    /// The store invariant, plus agreement of the identity index with the
    /// entry sequence.
    pub open spec fn wf(self) -> bool {
        &&& store_inv(self@)
        &&& forall|k: int|
            0 <= k < self@.len() ==> {
                &&& self.index@.contains_key((#[trigger] self@[k]).id)
                &&& self.index@[self@[k].id] == k as usize
            }
        &&& forall|id: u64| self.index@.contains_key(id) ==> has_id(self@, id)
    }

    /// An empty store.
    pub fn new() -> (r: FragmentStore)
        ensures
            r.wf(),
            r@ == Seq::<StoreEntryV>::empty(),
    {
        let r = FragmentStore { entries: Vec::new(), index: HashMap::new() };
        proof {
            assert(r@ =~= Seq::<StoreEntryV>::empty());
        }
        r
    }

    /// How many fragments the store holds.
    pub fn len(&self) -> (r: usize)
        ensures
            r == self@.len(),
    {
        self.entries.len()
    }

    /// Whether this identity is registered.
    pub fn contains(&self, id: ContentId) -> (r: bool)
        requires
            self.wf(),
        ensures
            r == has_id(self@, id),
    {
        let r = self.index.contains_key(&id);
        proof {
            if r {
                assert(has_id(self@, id));
            } else {
                if has_id(self@, id) {
                    let k = idx_of(self@, id);
                    assert(0 <= k < self@.len() && self@[k].id == id);
                    assert(self.index@.contains_key(id));
                }
            }
        }
        r
    }

    /// The position of a registered identity.
    pub fn position(&self, id: ContentId) -> (r: Option<usize>)
        requires
            self.wf(),
        ensures
            match r {
                Some(k) => has_id(self@, id) && k == idx_of(self@, id) && k < self@.len()
                    && self@[k as int].id == id,
                None => !has_id(self@, id),
            },
    {
        let n = self.entries.len();
        match self.index.get(&id) {
            Some(k) => {
                let k = *k;
                proof {
                    assert(n == self@.len());
                    assert(self.index@.contains_key(id) && self.index@[id] == k);
                    assert(has_id(self@, id));
                    let k0 = idx_of(self@, id);
                    assert(0 <= k0 < self@.len() && self@[k0].id == id);
                    assert(self.index@[self@[k0].id] == k0 as usize);
                    assert(k == k0 as usize);
                }
                Some(k)
            },
            None => {
                proof {
                    if has_id(self@, id) {
                        let k = idx_of(self@, id);
                        assert(0 <= k < self@.len() && self@[k].id == id);
                        assert(self.index@.contains_key(id));
                    }
                }
                None
            },
        }
    }

    /// The fragment registered under an identity.
    pub fn get(&self, id: ContentId) -> (r: Option<&Fragment>)
        requires
            self.wf(),
        ensures
            match r {
                Some(f) => has_id(self@, id) && f@ == frag_of(self@, id),
                None => !has_id(self@, id),
            },
    {
        match self.position(id) {
            Some(k) => Some(&self.entries[k].frag),
            None => None,
        }
    }

    /// Register a fragment: compute its canonical encoding and identity, and
    /// append it unless the identical fragment is already present.  Children
    /// must already be registered, so the reference graph stays acyclic by
    /// construction.
    pub fn register(&mut self, frag: Fragment) -> (r: Result<ContentId, StoreError>)
        requires
            old(self).wf(),
        ensures
            final(self).wf(),
            match r {
                Ok(id) => {
                    &&& frag@.wf()
                    &&& id == content_id_of(frag@)
                    &&& has_id(final(self)@, id)
                    &&& frag_of(final(self)@, id) == frag@
                    &&& if has_id(old(self)@, id) {
                        final(self)@ == old(self)@
                    } else {
                        final(self)@ == old(self)@.push(
                            StoreEntryV { id, frag: frag@, words: frag_words(frag@) },
                        )
                    }
                },
                Err(StoreError::InvalidFragment) => !frag@.wf() && final(self)@ == old(self)@,
                Err(StoreError::MissingChild) => frag@.wf() && final(self)@ == old(self)@ && (
                exists|j: int|
                    0 <= j < frag@.refs().len() && !has_id(old(self)@, #[trigger] frag@.refs()[j])),
                Err(StoreError::IdCollision) => {
                    &&& frag@.wf()
                    &&& final(self)@ == old(self)@
                    &&& has_id(old(self)@, content_id_of(frag@))
                    &&& frag_of(old(self)@, content_id_of(frag@)) != frag@
                },
            },
    {
        if !check_fragment_wf(&frag) {
            return Err(StoreError::InvalidFragment);
        }
        // Children first: every reference must already be registered.
        let refs = frag.refs();
        let mut j: usize = 0;
        while j < refs.len()
            invariant
                j <= refs@.len(),
                refs@ == frag@.refs(),
                frag@.wf(),
                *self == *old(self),
                old(self).wf(),
                forall|q: int| 0 <= q < j ==> has_id(old(self)@, #[trigger] refs@[q]),
            decreases refs@.len() - j,
        {
            if !self.contains(refs[j]) {
                proof {
                    assert(!has_id(old(self)@, frag@.refs()[j as int]));
                }
                return Err(StoreError::MissingChild);
            }
            j = j + 1;
        }
        let words = encode_fragment(&frag);
        let id = hash_words_exec(&words);
        match self.position(id) {
            Some(k) => {
                // The identity is taken: accept only the identical fragment.
                if words_eq(&self.entries[k].words, &words) {
                    proof {
                        let s = self@;
                        lemma_idx_of_unique(s, k as int);
                        // Equal canonical words mean equal fragments.
                        lemma_frag_roundtrip(s[k as int].frag);
                        lemma_frag_roundtrip(frag@);
                    }
                    Ok(id)
                } else {
                    proof {
                        let s = self@;
                        lemma_idx_of_unique(s, k as int);
                        if frag_of(s, id) == frag@ {
                            assert(s[k as int].words == frag_words(frag@));
                        }
                    }
                    Err(StoreError::IdCollision)
                }
            },
            None => {
                let k_new = self.entries.len();
                let entry = StoreEntry { id, frag, words };
                self.entries.push(entry);
                self.index.insert(id, k_new);
                proof {
                    let olds = old(self)@;
                    let news = self@;
                    assert(news =~= olds.push(news[olds.len() as int]));
                    assert(news[olds.len() as int] == StoreEntryV {
                        id,
                        frag: frag@,
                        words: frag_words(frag@),
                    });
                    assert forall|k1: int, k2: int| 0 <= k1 < k2 < news.len() implies (
                    #[trigger] news[k1]).id != (#[trigger] news[k2]).id by {
                        if k2 < olds.len() {
                            assert(news[k1] == olds[k1] && news[k2] == olds[k2]);
                        } else {
                            assert(news[k1] == olds[k1]);
                            if news[k1].id == id {
                                assert(has_id(olds, id));
                            }
                        }
                    }
                    // Invariant pieces for the new entry.
                    assert forall|k: int| 0 <= k < news.len() implies {
                        let e = #[trigger] news[k];
                        &&& e.frag.wf()
                        &&& e.words == frag_words(e.frag)
                        &&& e.id == hash_words(e.words)
                    } by {
                        if k < olds.len() {
                            assert(news[k] == olds[k]);
                        }
                    }
                    assert forall|k: int, j2: int|
                        0 <= k < news.len() && 0 <= j2 < news[k].frag.refs().len()
                            implies has_id_below(news, k, #[trigger] news[k].frag.refs()[j2]) by {
                        if k < olds.len() {
                            assert(news[k] == olds[k]);
                            assert(has_id_below(olds, k, olds[k].frag.refs()[j2]));
                            let w = choose|w: int|
                                0 <= w < k && w < olds.len() && (#[trigger] olds[w]).id
                                    == olds[k].frag.refs()[j2];
                            assert(news[w] == olds[w]);
                        } else {
                            assert(has_id(olds, news[k].frag.refs()[j2]));
                            let w = idx_of(olds, news[k].frag.refs()[j2]);
                            assert(news[w] == olds[w]);
                        }
                    }
                    assert forall|k: int| 0 <= k < news.len() implies self.index@.contains_key(
                        (#[trigger] news[k]).id,
                    ) && self.index@[news[k].id] == k as usize by {
                        if k < olds.len() {
                            assert(news[k] == olds[k]);
                            assert(old(self).index@.contains_key(olds[k].id));
                            assert(old(self).index@[olds[k].id] == k as usize);
                            if olds[k].id == id {
                                assert(has_id(olds, id));
                            }
                        }
                    }
                    assert forall|idq: u64| self.index@.contains_key(idq) implies has_id(
                        news,
                        idq,
                    ) by {
                        if idq == id {
                            assert(news[olds.len() as int].id == id);
                        } else {
                            assert(old(self).index@.contains_key(idq));
                            assert(has_id(olds, idq));
                            let w = idx_of(olds, idq);
                            assert(0 <= w < olds.len() && olds[w].id == idq);
                            assert(news[w] == olds[w]);
                        }
                    }
                    lemma_idx_of_unique(news, olds.len() as int);
                }
                Ok(id)
            },
        }
    }
}

/// Check the coordinate bounds of a fragment.  List lengths are bounded by
/// construction, since every list lives in memory.
pub fn check_fragment_wf(frag: &Fragment) -> (r: bool)
    ensures
        r == frag@.wf(),
{
    match frag {
        Fragment::Page { width, height, children } => {
            if *width < 0 || *width > crate::geom::COORD_LIMIT || *height < 0 || *height
                > crate::geom::COORD_LIMIT {
                return false;
            }
            proof {
                assert(children@.len() == vstd::std_specs::vec::spec_vec_len(children));
            }
            check_children_wf(children)
        },
        Fragment::Frame { bbox, children } => {
            if !check_rect_bounded(bbox) {
                return false;
            }
            proof {
                assert(children@.len() == vstd::std_specs::vec::spec_vec_len(children));
            }
            check_children_wf(children)
        },
        Fragment::GlyphRun { bbox, glyphs, .. } => {
            proof {
                assert(glyphs@.len() == vstd::std_specs::vec::spec_vec_len(glyphs));
            }
            check_rect_bounded(bbox)
        },
        Fragment::Shape { bbox, points, .. } => {
            if !check_rect_bounded(bbox) {
                return false;
            }
            proof {
                assert(points@.len() == vstd::std_specs::vec::spec_vec_len(points));
            }
            check_points_wf(points)
        },
        Fragment::Style { .. } => true,
        Fragment::Font(fi) => {
            proof {
                assert(fi.family@.len() == vstd::std_specs::vec::spec_vec_len(&fi.family));
                assert(fi.coverage@.len() == vstd::std_specs::vec::spec_vec_len(&fi.coverage));
                assert(fi.ligatures@.len() == vstd::std_specs::vec::spec_vec_len(&fi.ligatures));
                assert forall|q: int| 0 <= q < fi@.ligatures.len() implies (
                #[trigger] fi@.ligatures[q]).text.len() <= u64::MAX by {
                    assert(fi@.ligatures[q] == fi.ligatures@[q]@);
                    assert(fi.ligatures@[q].text@.len() == vstd::std_specs::vec::spec_vec_len(
                        &fi.ligatures@[q].text,
                    ));
                }
            }
            true
        },
        Fragment::TextMeta { bbox, text } => {
            proof {
                assert(text@.len() == vstd::std_specs::vec::spec_vec_len(text));
            }
            check_rect_bounded(bbox)
        },
    }
}

/// Check that a rectangle is bounded.
fn check_rect_bounded(r: &crate::geom::Rect) -> (ok: bool)
    ensures
        ok == r.bounded(),
{
    r.x_min <= r.x_max && r.y_min <= r.y_max && r.x_min >= -crate::geom::COORD_LIMIT && r.x_max
        <= crate::geom::COORD_LIMIT && r.y_min >= -crate::geom::COORD_LIMIT && r.y_max
        <= crate::geom::COORD_LIMIT
}

/// Check the offsets of a child list.
fn check_children_wf(children: &Vec<crate::ir::ChildRef>) -> (r: bool)
    ensures
        r == (forall|q: int| 0 <= q < children@.len() ==> (#[trigger] children@[q]).wf()),
{
    let n = children.len();
    let mut k: usize = 0;
    while k < n
        invariant
            k <= n,
            n == children@.len(),
            forall|q: int| 0 <= q < k ==> (#[trigger] children@[q]).wf(),
        decreases n - k,
    {
        let c = children[k];
        if c.dx < -crate::geom::COORD_LIMIT || c.dx > crate::geom::COORD_LIMIT || c.dy
            < -crate::geom::COORD_LIMIT || c.dy > crate::geom::COORD_LIMIT {
            proof {
                assert(!(forall|q: int|
                    0 <= q < children@.len() ==> (#[trigger] children@[q]).wf())) by {
                    if forall|q: int| 0 <= q < children@.len() ==> (#[trigger] children@[q]).wf() {
                        assert(children@[k as int].wf());
                    }
                }
            }
            return false;
        }
        k = k + 1;
    }
    true
}

/// Check the bounds of a point list.
fn check_points_wf(points: &Vec<crate::geom::Point>) -> (r: bool)
    ensures
        r == (forall|q: int| 0 <= q < points@.len() ==> (#[trigger] points@[q]).bounded()),
{
    let n = points.len();
    let mut k: usize = 0;
    while k < n
        invariant
            k <= n,
            n == points@.len(),
            forall|q: int| 0 <= q < k ==> (#[trigger] points@[q]).bounded(),
        decreases n - k,
    {
        let p = points[k];
        if p.x < -crate::geom::COORD_LIMIT || p.x > crate::geom::COORD_LIMIT || p.y
            < -crate::geom::COORD_LIMIT || p.y > crate::geom::COORD_LIMIT {
            proof {
                assert(!(forall|q: int|
                    0 <= q < points@.len() ==> (#[trigger] points@[q]).bounded())) by {
                    if forall|q: int|
                        0 <= q < points@.len() ==> (#[trigger] points@[q]).bounded() {
                        assert(points@[k as int].bounded());
                    }
                }
            }
            return false;
        }
        k = k + 1;
    }
    true
}

} // verus!
