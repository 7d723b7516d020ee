//! The module stream codec: framing for a set of modules in one byte buffer.
//!
//! Layout, in 64-bit little-endian words: a header (format version, entry
//! count), one directory entry per module (content identity, sequence number,
//! kind tag, payload offset, payload length), then the concatenated payloads.
//! The layout is canonical: payloads are contiguous and in directory order, a
//! snapshot module can only stand last, and the buffer holds nothing else.
//! Decoding reads the directory first and gives random access to payloads;
//! the payload words themselves are opaque to this codec.

use crate::ir::ContentId;
use crate::wire::{bytes_as_words, bytes_to_words, sub_words, words_as_bytes, words_to_bytes};
use crate::FORMAT_VERSION;
use vstd::prelude::*;

verus! {

/// What one module wraps.
#[derive(Clone, Copy, Debug, PartialEq, Eq, Structural)]
pub enum ModuleKind {
    /// The payload encodes a fragment.
    Fragment,
    /// The payload encodes a document snapshot (the top-level page list).
    Snapshot,
}

/// A named, versioned serialization unit: the unit of transmission.
#[derive(Clone, Debug)]
pub struct Module {
    /// Content identity of the payload.
    pub id: ContentId,
    /// Ordinal sequence number assigned by the producing engine.
    pub seq: u64,
    /// What the payload encodes.
    pub kind: ModuleKind,
    /// The payload words, opaque to the stream codec.
    pub payload: Vec<u64>,
}

/// Mathematical image of a [`Module`].
pub struct ModuleV {
    pub id: ContentId,
    pub seq: u64,
    pub kind: ModuleKind,
    pub payload: Seq<u64>,
}

impl View for Module {
    type V = ModuleV;

    open spec fn view(&self) -> ModuleV {
        ModuleV { id: self.id, seq: self.seq, kind: self.kind, payload: self.payload@ }
    }
}

/// The modules needed to bring a client from its last known state to the
/// server's current one: changed fragments, plus the new snapshot when the
/// document changed at all.  An empty delta set signals "no visual change".
#[derive(Debug)]
pub struct DeltaSet {
    /// Fragment modules, in deterministic emission order.
    pub modules: Vec<Module>,
    /// The new top-level snapshot module, absent when nothing changed.
    pub snapshot: Option<Module>,
}

/// Mathematical image of a [`DeltaSet`].
pub struct DeltaSetV {
    pub modules: Seq<ModuleV>,
    pub snapshot: Option<ModuleV>,
}

impl View for DeltaSet {
    type V = DeltaSetV;

    open spec fn view(&self) -> DeltaSetV {
        DeltaSetV {
            modules: self.modules@.map_values(|m: Module| m@),
            snapshot: match self.snapshot {
                Some(ref m) => Some(m@),
                None => None,
            },
        }
    }
}

/// The numeric tag of a module kind on the wire.
pub open spec fn kind_tag(k: ModuleKind) -> u64 {
    match k {
        ModuleKind::Fragment => 0,
        ModuleKind::Snapshot => 1,
    }
}

impl DeltaSetV {
    /// Directory order: fragment modules first, then the snapshot module.
    pub open spec fn entries(self) -> Seq<ModuleV> {
        self.modules + match self.snapshot {
            Some(m) => seq![m],
            None => Seq::empty(),
        }
    }

    /// A delta set the stream format can carry: fragment modules carry the
    /// fragment kind, the snapshot carries the snapshot kind, and every
    /// count, length and offset fits in one word.
    pub open spec fn wf(self) -> bool {
        &&& forall|k: int|
            0 <= k < self.modules.len() ==> (#[trigger] self.modules[k]).kind
                == ModuleKind::Fragment
        &&& match self.snapshot {
            Some(m) => m.kind == ModuleKind::Snapshot,
            None => true,
        }
        &&& self.entries().len() <= u64::MAX
        &&& entries_off(self.entries(), self.entries().len() as int) <= u64::MAX
    }

    /// The identities of the fragment modules, in order.
    pub open spec fn module_ids(self) -> Seq<ContentId> {
        self.modules.map_values(|m: ModuleV| m.id)
    }
}

/// Payload offset of entry `k`: the summed payload lengths of the entries
/// before it.
pub open spec fn entries_off(es: Seq<ModuleV>, k: int) -> int
    decreases k,
{
    if k <= 0 {
        0
    } else {
        entries_off(es, k - 1) + es[k - 1].payload.len()
    }
}

/// One directory entry.
pub open spec fn dir_entry_words(m: ModuleV, off: int) -> Seq<u64> {
    seq![m.id, m.seq, kind_tag(m.kind), off as u64, m.payload.len() as u64]
}

/// The directory of the first `k` entries.
pub open spec fn dir_words(es: Seq<ModuleV>, k: int) -> Seq<u64>
    decreases k,
{
    if k <= 0 {
        Seq::empty()
    } else {
        dir_words(es, k - 1) + dir_entry_words(es[k - 1], entries_off(es, k - 1))
    }
}

/// The concatenated payloads of the first `k` entries.
pub open spec fn payloads_words(es: Seq<ModuleV>, k: int) -> Seq<u64>
    decreases k,
{
    if k <= 0 {
        Seq::empty()
    } else {
        payloads_words(es, k - 1) + es[k - 1].payload
    }
}

/// The canonical word image of a delta set.
pub open spec fn stream_words(ds: DeltaSetV) -> Seq<u64> {
    let es = ds.entries();
    seq![FORMAT_VERSION, es.len() as u64] + dir_words(es, es.len() as int) + payloads_words(
        es,
        es.len() as int,
    )
}

/// The canonical byte image of a delta set: what `encode` produces and what
/// travels to the client.
pub open spec fn stream_bytes(ds: DeltaSetV) -> Seq<u8> {
    words_as_bytes(stream_words(ds))
}

// ---------------------------------------------------------------------------
// Facts about the image.
// ---------------------------------------------------------------------------

pub proof fn lemma_entries_off_mono(es: Seq<ModuleV>, a: int, b: int)
    requires
        0 <= a <= b,
    ensures
        entries_off(es, a) <= entries_off(es, b),
    decreases b,
{
    if a < b {
        lemma_entries_off_mono(es, a, b - 1);
    }
}

pub proof fn lemma_dir_words_len(es: Seq<ModuleV>, k: int)
    requires
        k >= 0,
    ensures
        dir_words(es, k).len() == 5 * k,
    decreases k,
{
    if k > 0 {
        lemma_dir_words_len(es, k - 1);
    }
}

pub proof fn lemma_payloads_words_len(es: Seq<ModuleV>, k: int)
    requires
        k >= 0,
    ensures
        payloads_words(es, k).len() == entries_off(es, k),
    decreases k,
{
    if k > 0 {
        lemma_payloads_words_len(es, k - 1);
    }
}

/// Each directory field of each entry, read out of the directory words.
pub proof fn lemma_dir_words_index(es: Seq<ModuleV>, n: int)
    requires
        0 <= n <= es.len(),
    ensures
        dir_words(es, n).len() == 5 * n,
        forall|k: int| 0 <= k < n ==> #[trigger] dir_words(es, n)[5 * k] == es[k].id,
        forall|k: int| 0 <= k < n ==> #[trigger] dir_words(es, n)[5 * k + 1] == es[k].seq,
        forall|k: int| 0 <= k < n ==> #[trigger] dir_words(es, n)[5 * k + 2] == kind_tag(es[k].kind),
        forall|k: int|
            0 <= k < n ==> #[trigger] dir_words(es, n)[5 * k + 3] == entries_off(es, k) as u64,
        forall|k: int|
            0 <= k < n ==> #[trigger] dir_words(es, n)[5 * k + 4] == es[k].payload.len() as u64,
    decreases n,
{
    lemma_dir_words_len(es, n);
    if n > 0 {
        lemma_dir_words_index(es, n - 1);
        assert forall|k: int| 0 <= k < n implies #[trigger] dir_words(es, n)[5 * k] == es[k].id
            && dir_words(es, n)[5 * k + 1] == es[k].seq && dir_words(es, n)[5 * k + 2] == kind_tag(
            es[k].kind,
        ) && dir_words(es, n)[5 * k + 3] == entries_off(es, k) as u64 && dir_words(es, n)[5 * k + 4]
            == es[k].payload.len() as u64 by {
            if k < n - 1 {
                assert(dir_words(es, n - 1)[5 * k] == es[k].id);
                assert(dir_words(es, n - 1)[5 * k + 1] == es[k].seq);
                assert(dir_words(es, n - 1)[5 * k + 2] == kind_tag(es[k].kind));
                assert(dir_words(es, n - 1)[5 * k + 3] == entries_off(es, k) as u64);
                assert(dir_words(es, n - 1)[5 * k + 4] == es[k].payload.len() as u64);
            } else {
                let e = dir_entry_words(es[n - 1], entries_off(es, n - 1));
                assert(dir_words(es, n)[5 * k] == e[0]);
                assert(dir_words(es, n)[5 * k + 1] == e[1]);
                assert(dir_words(es, n)[5 * k + 2] == e[2]);
                assert(dir_words(es, n)[5 * k + 3] == e[3]);
                assert(dir_words(es, n)[5 * k + 4] == e[4]);
            }
        }
    }
}

/// Each payload, read back out of the payload area.
pub proof fn lemma_payloads_words_index(es: Seq<ModuleV>, n: int, k: int)
    requires
        0 <= k < n <= es.len(),
    ensures
        payloads_words(es, n).subrange(
            entries_off(es, k),
            entries_off(es, k) + es[k].payload.len(),
        ) == es[k].payload,
    decreases n,
{
    lemma_payloads_words_len(es, n);
    lemma_payloads_words_len(es, k);
    lemma_entries_off_mono(es, k + 1, n);
    if k == n - 1 {
        assert(payloads_words(es, n).subrange(
            entries_off(es, n - 1),
            entries_off(es, n - 1) + es[n - 1].payload.len(),
        ) =~= es[n - 1].payload);
    } else {
        lemma_payloads_words_index(es, n - 1, k);
        lemma_payloads_words_len(es, n - 1);
        lemma_entries_off_mono(es, k + 1, n - 1);
        lemma_entries_off_mono(es, 0, k);
        assert(payloads_words(es, n).subrange(
            entries_off(es, k),
            entries_off(es, k) + es[k].payload.len(),
        ) =~= payloads_words(es, n - 1).subrange(
            entries_off(es, k),
            entries_off(es, k) + es[k].payload.len(),
        ));
    }
}

// ---------------------------------------------------------------------------
// Parsing.
// ---------------------------------------------------------------------------

/// Directory field accessors over raw stream words.
pub open spec fn dir_id(ws: Seq<u64>, k: int) -> u64 {
    ws[2 + 5 * k]
}

pub open spec fn dir_seq(ws: Seq<u64>, k: int) -> u64 {
    ws[2 + 5 * k + 1]
}

pub open spec fn dir_kind_w(ws: Seq<u64>, k: int) -> u64 {
    ws[2 + 5 * k + 2]
}

pub open spec fn dir_off_w(ws: Seq<u64>, k: int) -> u64 {
    ws[2 + 5 * k + 3]
}

pub open spec fn dir_len_w(ws: Seq<u64>, k: int) -> u64 {
    ws[2 + 5 * k + 4]
}

/// Canonical payload offset of entry `k`, summed from the directory's own
/// length fields.
pub open spec fn doff(ws: Seq<u64>, k: int) -> int
    decreases k,
{
    if k <= 0 {
        0
    } else {
        doff(ws, k - 1) + dir_len_w(ws, k - 1)
    }
}

pub proof fn lemma_doff_mono(ws: Seq<u64>, a: int, b: int)
    requires
        0 <= a <= b,
    ensures
        doff(ws, a) <= doff(ws, b),
    decreases b,
{
    if a < b {
        lemma_doff_mono(ws, a, b - 1);
    }
}

/// The directory is well-formed: kind tags are known, offsets are exactly the
/// canonical partial sums, and a snapshot entry stands only last.
pub open spec fn p_dir_ok(ws: Seq<u64>, n: int) -> bool {
    forall|k: int|
        0 <= k < n ==> {
            &&& (#[trigger] dir_kind_w(ws, k) == 0 || dir_kind_w(ws, k) == 1)
            &&& dir_off_w(ws, k) == doff(ws, k) as u64
            &&& doff(ws, k + 1) <= u64::MAX
            &&& (dir_kind_w(ws, k) == 1 ==> k == n - 1)
        }
}

/// The module described by directory entry `k`, with its payload sliced out
/// of the payload area.
pub open spec fn module_at(ws: Seq<u64>, n: int, k: int) -> ModuleV {
    ModuleV {
        id: dir_id(ws, k),
        seq: dir_seq(ws, k),
        kind: if dir_kind_w(ws, k) == 1 {
            ModuleKind::Snapshot
        } else {
            ModuleKind::Fragment
        },
        payload: ws.subrange(2 + 5 * n + doff(ws, k), 2 + 5 * n + doff(ws, k + 1)),
    }
}

/// Parse a whole stream out of words.
pub open spec fn p_stream(ws: Seq<u64>) -> Option<DeltaSetV> {
    if ws.len() < 2 || ws[0] != FORMAT_VERSION {
        None
    } else {
        let n = ws[1] as int;
        if 2 + 5 * n > ws.len() {
            None
        } else if !p_dir_ok(ws, n) {
            None
        } else if 2 + 5 * n + doff(ws, n) != ws.len() {
            None
        } else {
            let has_snap = n > 0 && dir_kind_w(ws, n - 1) == 1;
            let nm = if has_snap {
                n - 1
            } else {
                n
            };
            Some(
                DeltaSetV {
                    modules: Seq::new(nm as nat, |k: int| module_at(ws, n, k)),
                    snapshot: if has_snap {
                        Some(module_at(ws, n, n - 1))
                    } else {
                        None
                    },
                },
            )
        }
    }
}

/// Parse a whole stream out of bytes.
pub open spec fn p_stream_bytes(bs: Seq<u8>) -> Option<DeltaSetV> {
    if bs.len() % 8 == 0 {
        p_stream(bytes_as_words(bs))
    } else {
        None
    }
}

// ---------------------------------------------------------------------------
// Round trip: a well-formed delta set parses back from its own image.
// ---------------------------------------------------------------------------

pub proof fn lemma_stream_roundtrip(ds: DeltaSetV)
    requires
        ds.wf(),
    ensures
        p_stream(stream_words(ds)) == Some(ds),
{
    let es = ds.entries();
    let n = es.len() as int;
    let ws = stream_words(ds);
    lemma_dir_words_index(es, n);
    lemma_payloads_words_len(es, n);
    assert(ws.len() == 2 + 5 * n + entries_off(es, n));
    assert(ws[0] == FORMAT_VERSION);
    assert(ws[1] == n as u64);

    // Directory fields land where the accessors read them.
    assert forall|k: int| 0 <= k < n implies {
        &&& #[trigger] dir_id(ws, k) == es[k].id
        &&& dir_seq(ws, k) == es[k].seq
        &&& dir_kind_w(ws, k) == kind_tag(es[k].kind)
        &&& dir_off_w(ws, k) == entries_off(es, k) as u64
        &&& dir_len_w(ws, k) == es[k].payload.len() as u64
    } by {
        assert(ws[2 + 5 * k] == dir_words(es, n)[5 * k]);
        assert(ws[2 + 5 * k + 1] == dir_words(es, n)[5 * k + 1]);
        assert(ws[2 + 5 * k + 2] == dir_words(es, n)[5 * k + 2]);
        assert(ws[2 + 5 * k + 3] == dir_words(es, n)[5 * k + 3]);
        assert(ws[2 + 5 * k + 4] == dir_words(es, n)[5 * k + 4]);
    }

    assert forall|q: int| 0 <= q < n implies #[trigger] dir_len_w(ws, q) == es[q].payload.len()
        as u64 by {
        assert(dir_id(ws, q) == es[q].id);
    }

    // The canonical offsets recomputed from the directory agree.
    assert forall|k: int| 0 <= k <= n implies #[trigger] doff(ws, k) == entries_off(es, k) by {
        lemma_doff_matches(ws, es, k);
    }

    assert(p_dir_ok(ws, n)) by {
        assert forall|k: int| 0 <= k < n implies {
            &&& (#[trigger] dir_kind_w(ws, k) == 0 || dir_kind_w(ws, k) == 1)
            &&& dir_off_w(ws, k) == doff(ws, k) as u64
            &&& doff(ws, k + 1) <= u64::MAX
            &&& (dir_kind_w(ws, k) == 1 ==> k == n - 1)
        } by {
            assert(dir_id(ws, k) == es[k].id);
            lemma_entries_off_mono(es, 0, k);
            lemma_entries_off_mono(es, k + 1, n);
            assert(dir_kind_w(ws, k) == kind_tag(es[k].kind));
            assert(doff(ws, k) == entries_off(es, k));
            assert(doff(ws, k + 1) == entries_off(es, k + 1));
            if dir_kind_w(ws, k) == 1 {
                // Only the snapshot kind has tag one, and the snapshot, when
                // present, is the last entry.
                assert(kind_tag(es[k].kind) == 1);
                assert(es[k].kind == ModuleKind::Snapshot);
                if k < ds.modules.len() {
                    assert(es[k] == ds.modules[k]);
                    assert(ds.modules[k].kind == ModuleKind::Fragment);
                }
            }
        }
    }
    assert(2 + 5 * n + doff(ws, n) == ws.len());

    // Payloads slice back out.
    let has_snap = n > 0 && dir_kind_w(ws, n - 1) == 1;
    assert forall|k: int| 0 <= k < n implies #[trigger] module_at(ws, n, k) == es[k] by {
        lemma_payloads_words_index(es, n, k);
        lemma_entries_off_mono(es, k + 1, n);
        lemma_entries_off_mono(es, 0, k);
        let ok = entries_off(es, k);
        let pk = es[k].payload.len() as int;
        assert forall|q: int| 0 <= q < pk implies #[trigger] ws.subrange(
            2 + 5 * n + ok,
            2 + 5 * n + ok + pk,
        )[q] == payloads_words(es, n).subrange(ok, ok + pk)[q] by {
            assert(ws.subrange(2 + 5 * n + ok, 2 + 5 * n + ok + pk)[q] == ws[2 + 5 * n + ok + q]);
            assert(ws[2 + 5 * n + ok + q] == payloads_words(es, n)[ok + q]);
            assert(payloads_words(es, n).subrange(ok, ok + pk)[q] == payloads_words(es, n)[ok
                + q]);
        }
        assert(ws.subrange(2 + 5 * n + entries_off(es, k), 2 + 5 * n + entries_off(es, k) + pk)
            =~= payloads_words(es, n).subrange(
            entries_off(es, k),
            entries_off(es, k) + es[k].payload.len(),
        ));
        if dir_kind_w(ws, k) == 1 {
            assert(es[k].kind == ModuleKind::Snapshot);
        } else {
            assert(kind_tag(es[k].kind) == 0);
            assert(es[k].kind == ModuleKind::Fragment);
        }
    }
    match ds.snapshot {
        Some(m) => {
            assert(es[n - 1] == m);
            assert(kind_tag(m.kind) == 1);
            assert(has_snap);
            assert forall|k: int| 0 <= k < n - 1 implies #[trigger] es[k] == ds.modules[k] by {}
            assert(Seq::new((n - 1) as nat, |k: int| module_at(ws, n, k)) =~= ds.modules);
        },
        None => {
            assert(!has_snap) by {
                if n > 0 {
                    assert(es[n - 1] == ds.modules[n - 1]);
                    assert(ds.modules[n - 1].kind == ModuleKind::Fragment);
                }
            }
            assert(Seq::new(n as nat, |k: int| module_at(ws, n, k)) =~= ds.modules);
        },
    }
    assert(p_stream(ws) =~~= Some(ds));
}

/// The offsets recomputed from the written directory are the partial sums.
proof fn lemma_doff_matches(ws: Seq<u64>, es: Seq<ModuleV>, k: int)
    requires
        0 <= k <= es.len(),
        entries_off(es, es.len() as int) <= u64::MAX,
        forall|q: int|
            0 <= q < es.len() ==> #[trigger] dir_len_w(ws, q) == es[q].payload.len() as u64,
    ensures
        doff(ws, k) == entries_off(es, k),
    decreases k,
{
    if k > 0 {
        lemma_doff_matches(ws, es, k - 1);
        lemma_entries_off_mono(es, 0, k - 1);
        lemma_entries_off_mono(es, k, es.len() as int);
        assert(dir_len_w(ws, k - 1) == es[k - 1].payload.len() as u64);
        assert(es[k - 1].payload.len() <= u64::MAX);
    }
}

/// Round trip at the byte level: the canonical bytes of a well-formed delta
/// set decode to exactly that delta set.
pub proof fn lemma_stream_bytes_roundtrip(ds: DeltaSetV)
    requires
        ds.wf(),
    ensures
        p_stream_bytes(stream_bytes(ds)) == Some(ds),
{
    crate::wire::lemma_words_bytes_roundtrip(stream_words(ds));
    lemma_stream_roundtrip(ds);
}

// ---------------------------------------------------------------------------
// Executable encoding.
// ---------------------------------------------------------------------------

/// Why a delta set cannot be framed.
#[derive(Clone, Copy, Debug, PartialEq, Eq, Structural)]
pub enum EncodeError {
    /// A module in the fragment list does not carry the fragment kind, or the
    /// snapshot module does not carry the snapshot kind.
    KindMismatch,
    /// A count or a summed payload length does not fit in one word.
    TooLarge,
}

impl DeltaSetV {
    /// Every module carries the kind its position claims.
    pub open spec fn kinds_ok(self) -> bool {
        &&& forall|k: int|
            0 <= k < self.modules.len() ==> (#[trigger] self.modules[k]).kind
                == ModuleKind::Fragment
        &&& match self.snapshot {
            Some(m) => m.kind == ModuleKind::Snapshot,
            None => true,
        }
    }

    /// Counts and offsets fit in one word.
    pub open spec fn sizes_ok(self) -> bool {
        &&& self.entries().len() <= u64::MAX
        &&& entries_off(self.entries(), self.entries().len() as int) <= u64::MAX
    }
}

/// Frame a delta set into its canonical byte image.  Fails exactly on delta
/// sets the format cannot carry: a module of the wrong kind, or sizes beyond
/// one word.
pub fn encode_delta(ds: &DeltaSet) -> (r: Result<Vec<u8>, EncodeError>)
    ensures
        match r {
            Ok(bs) => ds@.wf() && bs@ == stream_bytes(ds@),
            Err(EncodeError::KindMismatch) => !ds@.kinds_ok(),
            Err(EncodeError::TooLarge) => ds@.kinds_ok() && !ds@.sizes_ok(),
        },
{
    let ghost es = ds@.entries();
    let m = ds.modules.len();
    // Check the kinds.
    let mut k: usize = 0;
    while k < m
        invariant
            k <= m,
            m == ds@.modules.len(),
            forall|q: int|
                0 <= q < k ==> (#[trigger] ds@.modules[q]).kind == ModuleKind::Fragment,
        decreases m - k,
    {
        match ds.modules[k].kind {
            ModuleKind::Fragment => {},
            ModuleKind::Snapshot => {
                proof {
                    assert(ds@.modules[k as int].kind != ModuleKind::Fragment);
                }
                return Err(EncodeError::KindMismatch);
            },
        }
        k = k + 1;
    }
    let has_snap = match &ds.snapshot {
        Some(sm) => {
            match sm.kind {
                ModuleKind::Snapshot => {},
                ModuleKind::Fragment => {
                    return Err(EncodeError::KindMismatch);
                },
            }
            true
        },
        None => false,
    };
    assert(ds@.kinds_ok());
    // Entry count.
    if has_snap && m as u64 == u64::MAX {
        proof {
            assert(es.len() == m + 1);
        }
        return Err(EncodeError::TooLarge);
    }
    let n: u64 = if has_snap {
        m as u64 + 1
    } else {
        m as u64
    };
    proof {
        assert(es.len() == n);
        assert forall|q: int| 0 <= q < m implies #[trigger] es[q] == ds@.modules[q] by {}
    }
    // Header and directory, with the payload offsets summed as we go.
    let mut out: Vec<u64> = Vec::new();
    out.push(FORMAT_VERSION);
    out.push(n);
    let mut off: u64 = 0;
    let mut k: u64 = 0;
    proof {
        assert(out@ =~= seq![FORMAT_VERSION, n as u64] + dir_words(es, 0));
    }
    while k < n
        invariant
            k <= n,
            n == es.len(),
            m == ds@.modules.len(),
            n as int == m + if has_snap { 1int } else { 0 },
            has_snap <==> ds@.snapshot is Some,
            es == ds@.entries(),
            ds@.kinds_ok(),
            off == entries_off(es, k as int),
            out@ == seq![FORMAT_VERSION, n as u64] + dir_words(es, k as int),
        decreases n - k,
    {
        let entry = if k < m as u64 {
            &ds.modules[k as usize]
        } else {
            match &ds.snapshot {
                Some(sm) => sm,
                None => {
                    // Unreachable: the entry count includes a snapshot only
                    // when one is present.
                    proof {
                        assert(false);
                    }
                    return Err(EncodeError::TooLarge);
                },
            }
        };
        proof {
            assert(entry@ == es[k as int]);
        }
        let plen = entry.payload.len() as u64;
        if plen > u64::MAX - off {
            proof {
                assert(es[k as int].payload.len() == plen);
                assert(entries_off(es, k as int + 1) > u64::MAX);
                lemma_entries_off_mono(es, k as int + 1, es.len() as int);
                assert(!ds@.sizes_ok());
            }
            return Err(EncodeError::TooLarge);
        }
        out.push(entry.id);
        out.push(entry.seq);
        out.push(
            match entry.kind {
                ModuleKind::Fragment => 0,
                ModuleKind::Snapshot => 1,
            },
        );
        out.push(off);
        out.push(plen);
        proof {
            assert(out@ =~= seq![FORMAT_VERSION, n as u64] + dir_words(es, k as int + 1));
        }
        off = off + plen;
        k = k + 1;
    }
    // Payloads.
    let mut k: u64 = 0;
    let ghost dir_done = out@;
    while k < n
        invariant
            k <= n,
            n == es.len(),
            m == ds@.modules.len(),
            n as int == m + if has_snap { 1int } else { 0 },
            has_snap <==> ds@.snapshot is Some,
            es == ds@.entries(),
            ds@.kinds_ok(),
            entries_off(es, es.len() as int) <= u64::MAX,
            dir_done == seq![FORMAT_VERSION, n as u64] + dir_words(es, n as int),
            out@ == dir_done + payloads_words(es, k as int),
        decreases n - k,
    {
        let entry = if k < m as u64 {
            &ds.modules[k as usize]
        } else {
            match &ds.snapshot {
                Some(sm) => sm,
                None => {
                    // Unreachable: the entry count includes a snapshot only
                    // when one is present.
                    proof {
                        assert(false);
                    }
                    return Err(EncodeError::TooLarge);
                },
            }
        };
        proof {
            assert(entry@ == es[k as int]);
        }
        let mut piece = entry.payload.clone();
        proof {
            assert(piece@ == entry.payload@);
        }
        out.append(&mut piece);
        proof {
            assert(out@ =~= dir_done + payloads_words(es, k as int + 1));
        }
        k = k + 1;
    }
    proof {
        assert(out@ =~= stream_words(ds@));
        assert(ds@.wf());
    }
    Ok(words_to_bytes(&out))
}

// ---------------------------------------------------------------------------
// Executable decoding: the lazy stream handle.
// ---------------------------------------------------------------------------

/// Why a byte buffer cannot be decoded.
#[derive(Clone, Copy, Debug, PartialEq, Eq, Structural)]
pub enum FramingError {
    /// The buffer length is not a multiple of the word size.
    Misaligned,
    /// The buffer is too short for a header, or its version word is unknown.
    UnsupportedVersion,
    /// The directory or the payload area is inconsistent: a bad kind tag, a
    /// non-canonical offset, a snapshot module not in last position, or a
    /// length pointing outside the buffer.
    Malformed,
}

/// One validated directory entry of a decoded stream.
#[derive(Clone, Copy, Debug, PartialEq, Eq, Structural)]
struct DirEntry {
    id: u64,
    seq: u64,
    snap: bool,
    off: usize,
    len: usize,
}

/// A decoded stream: the directory is parsed and validated eagerly, the
/// payloads stay in place until checked out.
#[derive(Debug)]
pub struct ModuleStream {
    words: Vec<u64>,
    dir: Vec<DirEntry>,
    pa: usize,
}

impl ModuleStream {
    /// The decoded handle mirrors its own words: the directory fields are the
    /// ones in the buffer and every payload range lies inside it.
    pub closed spec fn wf(self) -> bool {
        &&& p_stream(self.words@) is Some
        &&& self.words@.len() >= 2
        &&& self.words@[1] == self.dir@.len() as u64
        &&& self.pa == 2 + 5 * self.dir@.len()
        &&& self.pa <= self.words@.len()
        &&& forall|k: int|
            0 <= k < self.dir@.len() ==> {
                let e = #[trigger] self.dir@[k];
                &&& e.id == dir_id(self.words@, k)
                &&& e.seq == dir_seq(self.words@, k)
                &&& (e.snap <==> dir_kind_w(self.words@, k) == 1)
                &&& e.off == doff(self.words@, k)
                &&& e.off + e.len == doff(self.words@, k + 1)
                &&& self.pa + e.off + e.len <= self.words@.len()
            }
    }
}

impl View for ModuleStream {
    type V = DeltaSetV;

    closed spec fn view(&self) -> DeltaSetV {
        p_stream(self.words@)->Some_0
    }
}

impl ModuleStream {
    /// Decode a byte buffer: read the words, then parse and validate the
    /// directory.  Payloads are not touched.  Fails exactly on buffers that
    /// do not carry a canonical stream, and never partially applies anything.
    pub fn decode(bytes: &Vec<u8>) -> (r: Result<ModuleStream, FramingError>)
        ensures
            match r {
                Ok(st) => st.wf() && p_stream_bytes(bytes@) == Some(st@),
                Err(FramingError::Misaligned) => bytes@.len() % 8 != 0,
                Err(FramingError::UnsupportedVersion) => bytes@.len() % 8 == 0 && (bytes_as_words(
                    bytes@,
                ).len() < 2 || bytes_as_words(bytes@)[0] != FORMAT_VERSION),
                Err(FramingError::Malformed) => bytes@.len() % 8 == 0 && p_stream(
                    bytes_as_words(bytes@),
                ) is None,
            },
    {
        let words = match bytes_to_words(bytes.as_slice()) {
            None => {
                return Err(FramingError::Misaligned);
            },
            Some(w) => w,
        };
        let len = words.len();
        if len < 2 {
            return Err(FramingError::UnsupportedVersion);
        }
        if words[0] != FORMAT_VERSION {
            return Err(FramingError::UnsupportedVersion);
        }
        let ghost ws = words@;
        let n_word = words[1];
        if n_word > len as u64 {
            return Err(FramingError::Malformed);
        }
        let n = n_word as usize;
        if (len - 2) / 5 < n {
            proof {
                let avail2 = (len - 2) as int;
                let q = avail2 / 5;
                assert(5 * q <= avail2 && avail2 < 5 * (q + 1)) by (nonlinear_arith)
                    requires
                        avail2 >= 0,
                        q == avail2 / 5,
                ;
            }
            return Err(FramingError::Malformed);
        }
        let pa = 2 + 5 * n;
        let avail = len - pa;
        let mut dir: Vec<DirEntry> = Vec::new();
        let mut off: usize = 0;
        let mut k: usize = 0;
        while k < n
            invariant
                k <= n,
                n as int == n_word as int,
                len == ws.len(),
                ws == words@,
                bytes@.len() % 8 == 0,
                ws == bytes_as_words(bytes@),
                ws.len() >= 2,
                ws[0] == FORMAT_VERSION,
                n_word == ws[1],
                pa == 2 + 5 * n,
                pa <= len,
                avail == len - pa,
                off <= avail,
                off == doff(ws, k as int),
                dir@.len() == k,
                forall|q: int|
                    0 <= q < k ==> {
                        let e = #[trigger] dir@[q];
                        &&& e.id == dir_id(ws, q)
                        &&& e.seq == dir_seq(ws, q)
                        &&& (e.snap <==> dir_kind_w(ws, q) == 1)
                        &&& e.off == doff(ws, q)
                        &&& e.off + e.len == doff(ws, q + 1)
                        &&& e.off + e.len <= avail
                    },
                forall|q: int|
                    0 <= q < k ==> {
                        &&& (#[trigger] dir_kind_w(ws, q) == 0 || dir_kind_w(ws, q) == 1)
                        &&& dir_off_w(ws, q) == doff(ws, q) as u64
                        &&& doff(ws, q + 1) <= u64::MAX
                        &&& (dir_kind_w(ws, q) == 1 ==> q == n - 1)
                    },
            decreases n - k,
        {
            let base = 2 + 5 * k;
            let tag = words[base + 2];
            if tag > 1 {
                proof {
                    assert(dir_kind_w(ws, k as int) == tag);
                    assert(!p_dir_ok(ws, n_word as int)) by {
                        if p_dir_ok(ws, n_word as int) {
                            assert(dir_kind_w(ws, k as int) == 0 || dir_kind_w(ws, k as int)
                                == 1);
                        }
                    }
                }
                return Err(FramingError::Malformed);
            }
            if tag == 1 && k != n - 1 {
                proof {
                    assert(dir_kind_w(ws, k as int) == 1);
                    assert(!p_dir_ok(ws, n_word as int)) by {
                        if p_dir_ok(ws, n_word as int) {
                            assert(dir_kind_w(ws, k as int) == 1 ==> k as int == n_word as int
                                - 1);
                        }
                    }
                }
                return Err(FramingError::Malformed);
            }
            if words[base + 3] != off as u64 {
                proof {
                    assert(dir_off_w(ws, k as int) != doff(ws, k as int) as u64);
                    assert(!p_dir_ok(ws, n_word as int)) by {
                        if p_dir_ok(ws, n_word as int) {
                            assert(dir_off_w(ws, k as int) == doff(ws, k as int) as u64);
                        }
                    }
                }
                return Err(FramingError::Malformed);
            }
            let len_w = words[base + 4];
            if len_w > (avail - off) as u64 {
                proof {
                    // The payload area cannot hold this entry, so the total
                    // length check in the parser must fail.
                    assert(doff(ws, k as int + 1) > avail);
                    lemma_doff_mono(ws, k as int + 1, n_word as int);
                    assert(2 + 5 * (n_word as int) + doff(ws, n_word as int) != ws.len());
                }
                return Err(FramingError::Malformed);
            }
            let elen = len_w as usize;
            proof {
                assert(dir_id(ws, k as int) == ws[2 + 5 * (k as int)]);
                assert(dir_seq(ws, k as int) == ws[2 + 5 * (k as int) + 1]);
                assert(dir_kind_w(ws, k as int) == tag);
                assert(dir_off_w(ws, k as int) == off as u64);
                assert(dir_len_w(ws, k as int) == len_w);
                assert(doff(ws, k as int + 1) == off + len_w);
            }
            dir.push(DirEntry { id: words[base], seq: words[base + 1], snap: tag == 1, off, len: elen });
            off = off + elen;
            k = k + 1;
        }
        if off != avail {
            proof {
                assert(2 + 5 * (n_word as int) + doff(ws, n_word as int) != ws.len());
            }
            return Err(FramingError::Malformed);
        }
        proof {
            assert(p_dir_ok(ws, n_word as int)) by {
                assert forall|q: int| 0 <= q < n_word as int implies {
                    &&& (#[trigger] dir_kind_w(ws, q) == 0 || dir_kind_w(ws, q) == 1)
                    &&& dir_off_w(ws, q) == doff(ws, q) as u64
                    &&& doff(ws, q + 1) <= u64::MAX
                    &&& (dir_kind_w(ws, q) == 1 ==> q == n - 1)
                } by {}
            }
            assert(2 + 5 * (n_word as int) + doff(ws, n_word as int) == ws.len());
            assert(p_stream(ws) is Some);
        }
        let st = ModuleStream { words, dir, pa };
        proof {
            assert(st.wf());
            assert(p_stream_bytes(bytes@) == Some(st@));
        }
        Ok(st)
    }

    /// How many modules the stream carries, the snapshot module included.
    pub fn module_count(&self) -> (r: usize)
        requires
            self.wf(),
        ensures
            r == self@.modules.len() + if self@.snapshot is Some { 1int } else { 0 },
    {
        proof {
            self.lemma_view_shape();
        }
        self.dir.len()
    }

    /// The directory entry `k` describes exactly the view's module `k`.
    proof fn lemma_view_shape(&self)
        requires
            self.wf(),
        ensures
            ({
                let n = self.dir@.len() as int;
                let has_snap = n > 0 && self.dir@[n - 1].snap;
                let nm = if has_snap { n - 1 } else { n };
                &&& self@.modules.len() == nm
                &&& (self@.snapshot is Some <==> has_snap)
                &&& forall|k: int|
                    0 <= k < nm ==> #[trigger] self@.modules[k] == module_at(
                        self.words@,
                        n,
                        k,
                    )
                &&& has_snap ==> self@.snapshot == Some(module_at(self.words@, n, n - 1))
            }),
    {
        let ws = self.words@;
        let n = self.dir@.len() as int;
        assert(ws[1] as int == n);
        let has_snap_w = n > 0 && dir_kind_w(ws, n - 1) == 1;
        if n > 0 {
            assert(self.dir@[n - 1].snap <==> dir_kind_w(ws, n - 1) == 1);
        }
    }

    /// Materialize every module into owned storage, for merging.
    pub fn checkout_owned(&self) -> (r: DeltaSet)
        requires
            self.wf(),
        ensures
            r@ == self@,
    {
        proof {
            self.lemma_view_shape();
        }
        let n = self.dir.len();
        let has_snap = n > 0 && self.dir[n - 1].snap;
        let nm = if has_snap {
            n - 1
        } else {
            n
        };
        let mut modules: Vec<Module> = Vec::new();
        let mut k: usize = 0;
        while k < nm
            invariant
                k <= nm,
                nm <= n,
                n == self.dir@.len(),
                self.wf(),
                nm == self@.modules.len(),
                modules@.len() == k,
                forall|q: int| 0 <= q < k ==> #[trigger] modules@[q]@ == self@.modules[q],
                nm == if n > 0 && self.dir@[n - 1].snap { n - 1int } else { n as int },
            decreases nm - k,
        {
            proof {
                self.lemma_view_shape();
            }
            let e = self.dir[k];
            let wlen = self.words.len();
            proof {
                assert(self.dir@[k as int] == e);
                assert(self.pa + e.off + e.len <= wlen);
            }
            let payload = sub_words(&self.words, self.pa + e.off, e.len);
            let m = Module { id: e.id, seq: e.seq, kind: ModuleKind::Fragment, payload };
            proof {
                let ws = self.words@;
                let nn = self.dir@.len() as int;
                assert(dir_kind_w(ws, k as int) == 1 ==> k as int == nn - 1);
                assert(m@ == module_at(ws, nn, k as int));
            }
            modules.push(m);
            k = k + 1;
        }
        let snapshot = if has_snap {
            let e = self.dir[n - 1];
            let wlen = self.words.len();
            proof {
                assert(self.dir@[n - 1] == e);
                assert(self.pa + e.off + e.len <= wlen);
            }
            let payload = sub_words(&self.words, self.pa + e.off, e.len);
            Some(Module { id: e.id, seq: e.seq, kind: ModuleKind::Snapshot, payload })
        } else {
            None
        };
        let r = DeltaSet { modules, snapshot };
        proof {
            assert(r@.modules =~= self@.modules);
            assert(r@ =~~= self@);
        }
        r
    }

    /// Random access: materialize the first module carrying this content
    /// identity, if any.
    pub fn checkout(&self, id: ContentId) -> (r: Option<Module>)
        requires
            self.wf(),
        ensures
            match r {
                Some(m) => m@.id == id && ((exists|k: int|
                    0 <= k < self@.modules.len() && #[trigger] self@.modules[k] == m@)
                    || self@.snapshot == Some(m@)),
                None => {
                    &&& forall|k: int|
                        0 <= k < self@.modules.len() ==> (#[trigger] self@.modules[k]).id != id
                    &&& match self@.snapshot {
                        Some(sm) => sm.id != id,
                        None => true,
                    }
                },
            },
    {
        proof {
            self.lemma_view_shape();
        }
        let n = self.dir.len();
        let has_snap = n > 0 && self.dir[n - 1].snap;
        let nm = if has_snap {
            n - 1
        } else {
            n
        };
        let mut k: usize = 0;
        while k < n
            invariant
                k <= n,
                n == self.dir@.len(),
                self.wf(),
                has_snap == (n > 0 && self.dir@[n - 1].snap),
                nm == if has_snap { n - 1int } else { n as int },
                nm == self@.modules.len(),
                forall|q: int| 0 <= q < k && q < nm ==> (#[trigger] self@.modules[q]).id != id,
                (has_snap && k == n) ==> (match self@.snapshot {
                    Some(sm) => sm.id != id,
                    None => true,
                }),
                forall|q: int|
                    0 <= q < k ==> #[trigger] self.dir@[q].id != id,
            decreases n - k,
        {
            proof {
                self.lemma_view_shape();
            }
            let e = self.dir[k];
            let wlen = self.words.len();
            proof {
                assert(self.dir@[k as int] == e);
                assert(self.pa + e.off + e.len <= wlen);
            }
            if e.id == id {
                let payload = sub_words(&self.words, self.pa + e.off, e.len);
                let kind = if e.snap {
                    ModuleKind::Snapshot
                } else {
                    ModuleKind::Fragment
                };
                let m = Module { id: e.id, seq: e.seq, kind, payload };
                proof {
                    let ws = self.words@;
                    let nn = self.dir@.len() as int;
                    assert(dir_kind_w(ws, k as int) == 1 ==> k as int == nn - 1);
                    assert(m@ == module_at(ws, nn, k as int));
                    if (k as int) < nm {
                        assert(self@.modules[k as int] == m@);
                    } else {
                        assert(has_snap && k as int == nn - 1);
                        assert(self@.snapshot == Some(m@));
                    }
                }
                return Some(m);
            }
            proof {
                let ws = self.words@;
                let nn = self.dir@.len() as int;
                if (k as int) < nm {
                    assert(self@.modules[k as int] == module_at(ws, nn, k as int));
                    assert(self@.modules[k as int].id == self.dir@[k as int].id);
                }
                if has_snap && k as int == nn - 1 {
                    assert(self@.snapshot == Some(module_at(ws, nn, nn - 1)));
                }
            }
            k = k + 1;
        }
        proof {
            if has_snap {
                assert(self.dir@[n - 1].id != id);
            }
        }
        None
    }
}

} // verus!
