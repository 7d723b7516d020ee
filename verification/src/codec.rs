//! Canonical word encoding of fragments and snapshots.
//!
//! The encoding is rigid: every well-formed value has exactly one word image,
//! and parsing checks every constraint well-formedness demands, so a payload
//! that parses is well-formed and a well-formed value round-trips exactly.
//! Content identity is the word hash of this canonical image.

use crate::geom::{Point, Rect, COORD_LIMIT};
use crate::ir::{
    ChildRef, ContentId, DocumentInfoV, DocumentSnapshotV, FontInfoV, FontVariant, FragmentV,
    LigatureV, PageEntry,
};
use crate::wire::{hash_words, lemma_i64_word_roundtrip};
use crate::IR_VERSION;
use vstd::prelude::*;

verus! {

/// Payload tag of a page fragment.
pub const TAG_PAGE: u64 = 1;

/// Payload tag of a frame fragment.
pub const TAG_FRAME: u64 = 2;

/// Payload tag of a glyph-run fragment.
pub const TAG_GLYPH_RUN: u64 = 3;

/// Payload tag of a shape fragment.
pub const TAG_SHAPE: u64 = 4;

/// Payload tag of a style fragment.
pub const TAG_STYLE: u64 = 5;

/// Payload tag of a font fragment.
pub const TAG_FONT: u64 = 6;

/// Payload tag of a text-metadata fragment.
pub const TAG_TEXT_META: u64 = 7;

// ---------------------------------------------------------------------------
// Word images of the primitive pieces.
// ---------------------------------------------------------------------------

/// One byte per word.
pub open spec fn bytes_words(bs: Seq<u8>) -> Seq<u64>
    decreases bs.len(),
{
    if bs.len() == 0 {
        Seq::empty()
    } else {
        bytes_words(bs.drop_last()).push(bs.last() as u64)
    }
}

/// One 32-bit value per word.
pub open spec fn u32s_words(xs: Seq<u32>) -> Seq<u64>
    decreases xs.len(),
{
    if xs.len() == 0 {
        Seq::empty()
    } else {
        u32s_words(xs.drop_last()).push(xs.last() as u64)
    }
}

/// Three words per child reference.
pub open spec fn child_words(c: ChildRef) -> Seq<u64> {
    seq![c.id, c.dx as u64, c.dy as u64]
}

pub open spec fn children_words(cs: Seq<ChildRef>) -> Seq<u64>
    decreases cs.len(),
{
    if cs.len() == 0 {
        Seq::empty()
    } else {
        children_words(cs.drop_last()) + child_words(cs.last())
    }
}

/// Two words per path point.
pub open spec fn point_words(p: Point) -> Seq<u64> {
    seq![p.x as u64, p.y as u64]
}

pub open spec fn points_words(ps: Seq<Point>) -> Seq<u64>
    decreases ps.len(),
{
    if ps.len() == 0 {
        Seq::empty()
    } else {
        points_words(ps.drop_last()) + point_words(ps.last())
    }
}

/// Four words per rectangle.
pub open spec fn rect_words(r: Rect) -> Seq<u64> {
    seq![r.x_min as u64, r.y_min as u64, r.x_max as u64, r.y_max as u64]
}

/// Five words per page entry.
pub open spec fn page_entry_words(p: PageEntry) -> Seq<u64> {
    seq![p.id] + rect_words(p.frame)
}

pub open spec fn page_entries_words(ps: Seq<PageEntry>) -> Seq<u64>
    decreases ps.len(),
{
    if ps.len() == 0 {
        Seq::empty()
    } else {
        page_entries_words(ps.drop_last()) + page_entry_words(ps.last())
    }
}

// ---------------------------------------------------------------------------
// Length and index lemmas for the fixed-size item lists.
// ---------------------------------------------------------------------------

pub proof fn lemma_bytes_words_index(bs: Seq<u8>)
    ensures
        bytes_words(bs).len() == bs.len(),
        forall|k: int| 0 <= k < bs.len() ==> bytes_words(bs)[k] == bs[k] as u64,
    decreases bs.len(),
{
    if bs.len() > 0 {
        lemma_bytes_words_index(bs.drop_last());
    }
}

pub proof fn lemma_u32s_words_index(xs: Seq<u32>)
    ensures
        u32s_words(xs).len() == xs.len(),
        forall|k: int| 0 <= k < xs.len() ==> u32s_words(xs)[k] == xs[k] as u64,
    decreases xs.len(),
{
    if xs.len() > 0 {
        lemma_u32s_words_index(xs.drop_last());
    }
}

pub proof fn lemma_children_words_index(cs: Seq<ChildRef>)
    ensures
        children_words(cs).len() == 3 * cs.len(),
        forall|k: int| 0 <= k < cs.len() ==> #[trigger] children_words(cs)[3 * k] == cs[k].id,
        forall|k: int|
            0 <= k < cs.len() ==> #[trigger] children_words(cs)[3 * k + 1] == cs[k].dx as u64,
        forall|k: int|
            0 <= k < cs.len() ==> #[trigger] children_words(cs)[3 * k + 2] == cs[k].dy as u64,
    decreases cs.len(),
{
    if cs.len() > 0 {
        let butlast = cs.drop_last();
        lemma_children_words_index(butlast);
        let n = cs.len() as int;
        assert forall|k: int| 0 <= k < n implies #[trigger] children_words(cs)[3 * k] == cs[k].id
            && children_words(cs)[3 * k + 1] == cs[k].dx as u64 && children_words(cs)[3 * k + 2]
            == cs[k].dy as u64 by {
            if k < n - 1 {
                assert(children_words(butlast)[3 * k] == butlast[k].id);
                assert(children_words(butlast)[3 * k + 1] == butlast[k].dx as u64);
                assert(children_words(butlast)[3 * k + 2] == butlast[k].dy as u64);
            } else {
                assert(children_words(cs)[3 * k] == child_words(cs.last())[0]);
                assert(children_words(cs)[3 * k + 1] == child_words(cs.last())[1]);
                assert(children_words(cs)[3 * k + 2] == child_words(cs.last())[2]);
            }
        }
    }
}

pub proof fn lemma_points_words_index(ps: Seq<Point>)
    ensures
        points_words(ps).len() == 2 * ps.len(),
        forall|k: int| 0 <= k < ps.len() ==> #[trigger] points_words(ps)[2 * k] == ps[k].x as u64,
        forall|k: int|
            0 <= k < ps.len() ==> #[trigger] points_words(ps)[2 * k + 1] == ps[k].y as u64,
    decreases ps.len(),
{
    if ps.len() > 0 {
        let butlast = ps.drop_last();
        lemma_points_words_index(butlast);
        let n = ps.len() as int;
        assert forall|k: int| 0 <= k < n implies #[trigger] points_words(ps)[2 * k] == ps[k].x
            as u64 && points_words(ps)[2 * k + 1] == ps[k].y as u64 by {
            if k < n - 1 {
                assert(points_words(butlast)[2 * k] == butlast[k].x as u64);
                assert(points_words(butlast)[2 * k + 1] == butlast[k].y as u64);
            } else {
                assert(points_words(ps)[2 * k] == point_words(ps.last())[0]);
                assert(points_words(ps)[2 * k + 1] == point_words(ps.last())[1]);
            }
        }
    }
}

pub proof fn lemma_page_entries_words_index(ps: Seq<PageEntry>)
    ensures
        page_entries_words(ps).len() == 5 * ps.len(),
        forall|k: int| 0 <= k < ps.len() ==> #[trigger] page_entries_words(ps)[5 * k] == ps[k].id,
        forall|k: int|
            0 <= k < ps.len() ==> #[trigger] page_entries_words(ps)[5 * k + 1] == ps[k].frame.x_min
                as u64,
        forall|k: int|
            0 <= k < ps.len() ==> #[trigger] page_entries_words(ps)[5 * k + 2] == ps[k].frame.y_min
                as u64,
        forall|k: int|
            0 <= k < ps.len() ==> #[trigger] page_entries_words(ps)[5 * k + 3] == ps[k].frame.x_max
                as u64,
        forall|k: int|
            0 <= k < ps.len() ==> #[trigger] page_entries_words(ps)[5 * k + 4] == ps[k].frame.y_max
                as u64,
    decreases ps.len(),
{
    if ps.len() > 0 {
        let butlast = ps.drop_last();
        lemma_page_entries_words_index(butlast);
        let n = ps.len() as int;
        assert forall|k: int| 0 <= k < n implies #[trigger] page_entries_words(ps)[5 * k]
            == ps[k].id && page_entries_words(ps)[5 * k + 1] == ps[k].frame.x_min as u64
            && page_entries_words(ps)[5 * k + 2] == ps[k].frame.y_min as u64
            && page_entries_words(ps)[5 * k + 3] == ps[k].frame.x_max as u64
            && page_entries_words(ps)[5 * k + 4] == ps[k].frame.y_max as u64 by {
            if k < n - 1 {
                assert(page_entries_words(butlast)[5 * k] == butlast[k].id);
                assert(page_entries_words(butlast)[5 * k + 1] == butlast[k].frame.x_min as u64);
                assert(page_entries_words(butlast)[5 * k + 2] == butlast[k].frame.y_min as u64);
                assert(page_entries_words(butlast)[5 * k + 3] == butlast[k].frame.x_max as u64);
                assert(page_entries_words(butlast)[5 * k + 4] == butlast[k].frame.y_max as u64);
            } else {
                assert(page_entries_words(ps)[5 * k] == page_entry_words(ps.last())[0]);
                assert(page_entries_words(ps)[5 * k + 1] == page_entry_words(ps.last())[1]);
                assert(page_entries_words(ps)[5 * k + 2] == page_entry_words(ps.last())[2]);
                assert(page_entries_words(ps)[5 * k + 3] == page_entry_words(ps.last())[3]);
                assert(page_entries_words(ps)[5 * k + 4] == page_entry_words(ps.last())[4]);
            }
        }
    }
}

// ---------------------------------------------------------------------------
// Parsing of the primitive pieces.  A parser takes the words and a cursor and
// yields the parsed value and the cursor after it, or nothing when the words
// do not carry a well-formed value there.
// ---------------------------------------------------------------------------

/// The child reference laid out at `i`.
pub open spec fn child_at(ws: Seq<u64>, i: int) -> ChildRef {
    ChildRef { id: ws[i], dx: ws[i + 1] as i64, dy: ws[i + 2] as i64 }
}

pub open spec fn p_children(ws: Seq<u64>, i: int, n: nat) -> Option<(Seq<ChildRef>, int)> {
    if 0 <= i && i + 3 * n <= ws.len() && (forall|k: int|
        0 <= k < n ==> (#[trigger] child_at(ws, i + 3 * k)).wf()) {
        Some((Seq::new(n, |k: int| child_at(ws, i + 3 * k)), i + 3 * n))
    } else {
        None
    }
}

/// The path point laid out at `i`.
pub open spec fn point_at(ws: Seq<u64>, i: int) -> Point {
    Point { x: ws[i] as i64, y: ws[i + 1] as i64 }
}

pub open spec fn p_points(ws: Seq<u64>, i: int, n: nat) -> Option<(Seq<Point>, int)> {
    if 0 <= i && i + 2 * n <= ws.len() && (forall|k: int|
        0 <= k < n ==> (#[trigger] point_at(ws, i + 2 * k)).bounded()) {
        Some((Seq::new(n, |k: int| point_at(ws, i + 2 * k)), i + 2 * n))
    } else {
        None
    }
}

pub open spec fn p_u32s(ws: Seq<u64>, i: int, n: nat) -> Option<(Seq<u32>, int)> {
    if 0 <= i && i + n <= ws.len() && (forall|k: int| 0 <= k < n ==> #[trigger] ws[i + k] <= u32::MAX) {
        Some((Seq::new(n, |k: int| ws[i + k] as u32), i + n))
    } else {
        None
    }
}

pub open spec fn p_bytes(ws: Seq<u64>, i: int, n: nat) -> Option<(Seq<u8>, int)> {
    if 0 <= i && i + n <= ws.len() && (forall|k: int| 0 <= k < n ==> #[trigger] ws[i + k] <= u8::MAX) {
        Some((Seq::new(n, |k: int| ws[i + k] as u8), i + n))
    } else {
        None
    }
}

/// The rectangle laid out at `i`; parses only when bounded.
pub open spec fn rect_at(ws: Seq<u64>, i: int) -> Rect {
    Rect {
        x_min: ws[i] as i64,
        y_min: ws[i + 1] as i64,
        x_max: ws[i + 2] as i64,
        y_max: ws[i + 3] as i64,
    }
}

pub open spec fn p_rect(ws: Seq<u64>, i: int) -> Option<(Rect, int)> {
    if 0 <= i && i + 4 <= ws.len() && rect_at(ws, i).bounded() {
        Some((rect_at(ws, i), i + 4))
    } else {
        None
    }
}

/// The page entry laid out at `i`.
pub open spec fn page_entry_at(ws: Seq<u64>, i: int) -> PageEntry {
    PageEntry { id: ws[i], frame: rect_at(ws, i + 1) }
}

pub open spec fn p_page_entries(ws: Seq<u64>, i: int, n: nat) -> Option<(Seq<PageEntry>, int)> {
    if 0 <= i && i + 5 * n <= ws.len() && (forall|k: int|
        0 <= k < n ==> (#[trigger] page_entry_at(ws, i + 5 * k)).frame.bounded()) {
        Some((Seq::new(n, |k: int| page_entry_at(ws, i + 5 * k)), i + 5 * n))
    } else {
        None
    }
}

// ---------------------------------------------------------------------------
// Round trips of the primitive pieces: a list written at `i` parses back.
// ---------------------------------------------------------------------------

pub proof fn lemma_children_roundtrip(ws: Seq<u64>, i: int, cs: Seq<ChildRef>)
    requires
        0 <= i,
        i + 3 * cs.len() <= ws.len(),
        ws.subrange(i, i + 3 * cs.len()) == children_words(cs),
        forall|k: int| 0 <= k < cs.len() ==> (#[trigger] cs[k]).wf(),
    ensures
        p_children(ws, i, cs.len()) == Some((cs, i + 3 * cs.len())),
{
    lemma_children_words_index(cs);
    assert forall|k: int| 0 <= k < cs.len() implies (#[trigger] child_at(ws, i + 3 * k)) == cs[k] by {
        assert(ws.subrange(i, i + 3 * cs.len())[3 * k] == ws[i + 3 * k]);
        assert(ws.subrange(i, i + 3 * cs.len())[3 * k + 1] == ws[i + 3 * k + 1]);
        assert(ws.subrange(i, i + 3 * cs.len())[3 * k + 2] == ws[i + 3 * k + 2]);
        assert(children_words(cs)[3 * k] == cs[k].id);
        assert(children_words(cs)[3 * k + 1] == cs[k].dx as u64);
        assert(children_words(cs)[3 * k + 2] == cs[k].dy as u64);
        lemma_i64_word_roundtrip(cs[k].dx);
        lemma_i64_word_roundtrip(cs[k].dy);
    }
    assert(Seq::new(cs.len(), |k: int| child_at(ws, i + 3 * k)) =~= cs);
    assert(p_children(ws, i, cs.len()) =~~= Some((cs, i + 3 * cs.len() as int)));
}

pub proof fn lemma_points_roundtrip(ws: Seq<u64>, i: int, ps: Seq<Point>)
    requires
        0 <= i,
        i + 2 * ps.len() <= ws.len(),
        ws.subrange(i, i + 2 * ps.len()) == points_words(ps),
        forall|k: int| 0 <= k < ps.len() ==> (#[trigger] ps[k]).bounded(),
    ensures
        p_points(ws, i, ps.len()) == Some((ps, i + 2 * ps.len())),
{
    lemma_points_words_index(ps);
    assert forall|k: int| 0 <= k < ps.len() implies (#[trigger] point_at(ws, i + 2 * k)) == ps[k] by {
        assert(ws.subrange(i, i + 2 * ps.len())[2 * k] == ws[i + 2 * k]);
        assert(ws.subrange(i, i + 2 * ps.len())[2 * k + 1] == ws[i + 2 * k + 1]);
        assert(points_words(ps)[2 * k] == ps[k].x as u64);
        assert(points_words(ps)[2 * k + 1] == ps[k].y as u64);
        lemma_i64_word_roundtrip(ps[k].x);
        lemma_i64_word_roundtrip(ps[k].y);
    }
    assert(Seq::new(ps.len(), |k: int| point_at(ws, i + 2 * k)) =~= ps);
    assert(p_points(ws, i, ps.len()) =~~= Some((ps, i + 2 * ps.len() as int)));
}

pub proof fn lemma_u32s_roundtrip(ws: Seq<u64>, i: int, xs: Seq<u32>)
    requires
        0 <= i,
        i + xs.len() <= ws.len(),
        ws.subrange(i, i + xs.len()) == u32s_words(xs),
    ensures
        p_u32s(ws, i, xs.len()) == Some((xs, i + xs.len())),
{
    lemma_u32s_words_index(xs);
    assert forall|k: int| 0 <= k < xs.len() implies #[trigger] ws[i + k] == xs[k] as u64 by {
        assert(ws.subrange(i, i + xs.len())[k] == ws[i + k]);
    }
    assert(Seq::new(xs.len(), |k: int| ws[i + k] as u32) =~= xs);
}

pub proof fn lemma_bytes_roundtrip(ws: Seq<u64>, i: int, bs: Seq<u8>)
    requires
        0 <= i,
        i + bs.len() <= ws.len(),
        ws.subrange(i, i + bs.len()) == bytes_words(bs),
    ensures
        p_bytes(ws, i, bs.len()) == Some((bs, i + bs.len())),
{
    lemma_bytes_words_index(bs);
    assert forall|k: int| 0 <= k < bs.len() implies #[trigger] ws[i + k] == bs[k] as u64 by {
        assert(ws.subrange(i, i + bs.len())[k] == ws[i + k]);
    }
    assert(Seq::new(bs.len(), |k: int| ws[i + k] as u8) =~= bs);
}

pub proof fn lemma_rect_roundtrip(ws: Seq<u64>, i: int, r: Rect)
    requires
        0 <= i,
        i + 4 <= ws.len(),
        ws.subrange(i, i + 4) == rect_words(r),
        r.bounded(),
    ensures
        p_rect(ws, i) == Some((r, i + 4)),
        rect_at(ws, i) == r,
{
    assert forall|m: int| 0 <= m < 4 implies ws[i + m] == rect_words(r)[m] by {
        assert(ws.subrange(i, i + 4)[m] == ws[i + m]);
    }
    lemma_i64_word_roundtrip(r.x_min);
    lemma_i64_word_roundtrip(r.y_min);
    lemma_i64_word_roundtrip(r.x_max);
    lemma_i64_word_roundtrip(r.y_max);
}

pub proof fn lemma_page_entries_roundtrip(ws: Seq<u64>, i: int, ps: Seq<PageEntry>)
    requires
        0 <= i,
        i + 5 * ps.len() <= ws.len(),
        ws.subrange(i, i + 5 * ps.len()) == page_entries_words(ps),
        forall|k: int| 0 <= k < ps.len() ==> (#[trigger] ps[k]).frame.bounded(),
    ensures
        p_page_entries(ws, i, ps.len()) == Some((ps, i + 5 * ps.len())),
{
    lemma_page_entries_words_index(ps);
    assert forall|k: int| 0 <= k < ps.len() implies (#[trigger] page_entry_at(ws, i + 5 * k)) == ps[k] by {
        assert(ws.subrange(i, i + 5 * ps.len())[5 * k] == ws[i + 5 * k]);
        assert(ws.subrange(i, i + 5 * ps.len())[5 * k + 1] == ws[i + 5 * k + 1]);
        assert(ws.subrange(i, i + 5 * ps.len())[5 * k + 2] == ws[i + 5 * k + 2]);
        assert(ws.subrange(i, i + 5 * ps.len())[5 * k + 3] == ws[i + 5 * k + 3]);
        assert(ws.subrange(i, i + 5 * ps.len())[5 * k + 4] == ws[i + 5 * k + 4]);
        assert(page_entries_words(ps)[5 * k] == ps[k].id);
        assert(page_entries_words(ps)[5 * k + 1] == ps[k].frame.x_min as u64);
        assert(page_entries_words(ps)[5 * k + 2] == ps[k].frame.y_min as u64);
        assert(page_entries_words(ps)[5 * k + 3] == ps[k].frame.x_max as u64);
        assert(page_entries_words(ps)[5 * k + 4] == ps[k].frame.y_max as u64);
        lemma_i64_word_roundtrip(ps[k].frame.x_min);
        lemma_i64_word_roundtrip(ps[k].frame.y_min);
        lemma_i64_word_roundtrip(ps[k].frame.x_max);
        lemma_i64_word_roundtrip(ps[k].frame.y_max);
    }
    assert(Seq::new(ps.len(), |k: int| page_entry_at(ws, i + 5 * k)) =~= ps);
    assert(p_page_entries(ws, i, ps.len()) =~~= Some((ps, i + 5 * ps.len() as int)));
}

// ---------------------------------------------------------------------------
// Ligatures: the one variable-size list item.
// ---------------------------------------------------------------------------

/// Two words of header, then the ligated text.
pub open spec fn lig_words(l: LigatureV) -> Seq<u64> {
    seq![l.glyph as u64, l.text.len() as u64] + bytes_words(l.text)
}

pub open spec fn ligs_words(ls: Seq<LigatureV>) -> Seq<u64>
    decreases ls.len(),
{
    if ls.len() == 0 {
        Seq::empty()
    } else {
        lig_words(ls.first()) + ligs_words(ls.drop_first())
    }
}

/// Appending one ligature appends its words.
pub proof fn lemma_ligs_words_push(ls: Seq<LigatureV>, l: LigatureV)
    ensures
        ligs_words(ls.push(l)) == ligs_words(ls) + lig_words(l),
    decreases ls.len(),
{
    if ls.len() == 0 {
        assert(ls.push(l).drop_first() =~= Seq::<LigatureV>::empty());
        assert(ls.push(l).first() == l);
        assert(lig_words(l) + ligs_words(Seq::<LigatureV>::empty()) =~= lig_words(l));
        assert(ligs_words(ls) + lig_words(l) =~= lig_words(l));
    } else {
        assert(ls.push(l).drop_first() =~= ls.drop_first().push(l));
        assert(ls.push(l).first() == ls.first());
        lemma_ligs_words_push(ls.drop_first(), l);
        assert(ligs_words(ls.push(l)) =~= ligs_words(ls) + lig_words(l));
    }
}

pub open spec fn p_lig(ws: Seq<u64>, i: int) -> Option<(LigatureV, int)> {
    if 0 <= i && i + 2 <= ws.len() && ws[i] <= u16::MAX {
        match p_bytes(ws, i + 2, ws[i + 1] as nat) {
            Some((text, j)) => Some((LigatureV { glyph: ws[i] as u16, text }, j)),
            None => None,
        }
    } else {
        None
    }
}

pub open spec fn p_ligs(ws: Seq<u64>, i: int, n: nat) -> Option<(Seq<LigatureV>, int)>
    decreases n,
{
    if n == 0 {
        if 0 <= i <= ws.len() {
            Some((Seq::empty(), i))
        } else {
            None
        }
    } else {
        match p_lig(ws, i) {
            Some((l, j)) => match p_ligs(ws, j, (n - 1) as nat) {
                Some((ls, k)) => Some((seq![l] + ls, k)),
                None => None,
            },
            None => None,
        }
    }
}

pub proof fn lemma_lig_roundtrip(ws: Seq<u64>, i: int, l: LigatureV)
    requires
        0 <= i,
        i + lig_words(l).len() <= ws.len(),
        ws.subrange(i, i + lig_words(l).len()) == lig_words(l),
        l.text.len() <= u64::MAX,
    ensures
        lig_words(l).len() == 2 + l.text.len(),
        p_lig(ws, i) == Some((l, i + lig_words(l).len())),
{
    lemma_bytes_words_index(l.text);
    let lw = lig_words(l);
    assert(lw.len() == 2 + l.text.len());
    assert(ws.subrange(i, i + lw.len())[0] == ws[i]);
    assert(ws.subrange(i, i + lw.len())[1] == ws[i + 1]);
    assert(ws[i] == l.glyph as u64);
    assert(ws[i + 1] == l.text.len() as u64);
    assert(ws.subrange(i + 2, i + 2 + l.text.len()) =~= bytes_words(l.text)) by {
        assert forall|m: int| 0 <= m < l.text.len() implies ws.subrange(
            i + 2,
            i + 2 + l.text.len(),
        )[m] == bytes_words(l.text)[m] by {
            assert(ws.subrange(i, i + lw.len())[2 + m] == ws[i + 2 + m]);
            assert(lw[2 + m] == bytes_words(l.text)[m]);
        }
    }
    lemma_bytes_roundtrip(ws, i + 2, l.text);
    assert(ws[i + 1] as nat == l.text.len());
}

pub proof fn lemma_ligs_roundtrip(ws: Seq<u64>, i: int, ls: Seq<LigatureV>)
    requires
        0 <= i,
        i + ligs_words(ls).len() <= ws.len(),
        ws.subrange(i, i + ligs_words(ls).len()) == ligs_words(ls),
        forall|k: int| 0 <= k < ls.len() ==> (#[trigger] ls[k]).text.len() <= u64::MAX,
    ensures
        p_ligs(ws, i, ls.len()) == Some((ls, i + ligs_words(ls).len())),
    decreases ls.len(),
{
    if ls.len() == 0 {
        assert(p_ligs(ws, i, 0) =~~= Some((ls, i + ligs_words(ls).len() as int)));
    } else {
        let l0 = ls.first();
        let tail = ls.drop_first();
        let lw = lig_words(l0);
        let total = ligs_words(ls);
        assert(total == lw + ligs_words(tail));
        assert(ws.subrange(i, i + lw.len()) =~= lw) by {
            assert forall|m: int| 0 <= m < lw.len() implies ws.subrange(i, i + lw.len())[m]
                == lw[m] by {
                assert(ws.subrange(i, i + total.len())[m] == ws[i + m]);
                assert(total[m] == lw[m]);
            }
        }
        lemma_lig_roundtrip(ws, i, l0);
        let j = i + lw.len();
        assert(ws.subrange(j, j + ligs_words(tail).len()) =~= ligs_words(tail)) by {
            assert forall|m: int| 0 <= m < ligs_words(tail).len() implies ws.subrange(
                j,
                j + ligs_words(tail).len(),
            )[m] == ligs_words(tail)[m] by {
                assert(ws.subrange(i, i + total.len())[lw.len() + m] == ws[j + m]);
                assert(total[lw.len() + m] == ligs_words(tail)[m]);
            }
        }
        assert forall|k: int| 0 <= k < tail.len() implies (#[trigger] tail[k]).text.len()
            <= u64::MAX by {
            assert(tail[k] == ls[k + 1]);
        }
        lemma_ligs_roundtrip(ws, j, tail);
        assert(seq![l0] + tail =~= ls);
        assert(p_ligs(ws, i, ls.len()) =~~= Some((ls, i + total.len() as int)));
    }
}

// ---------------------------------------------------------------------------
// Fonts.
// ---------------------------------------------------------------------------

pub open spec fn font_words(fi: FontInfoV) -> Seq<u64> {
    seq![fi.family.len() as u64] + bytes_words(fi.family) + seq![
        fi.variant.style as u64,
        fi.variant.weight as u64,
        fi.variant.stretch as u64,
        fi.flags as u64,
        fi.coverage.len() as u64,
    ] + u32s_words(fi.coverage) + seq![fi.ligatures.len() as u64] + ligs_words(fi.ligatures)
}

pub open spec fn p_font(ws: Seq<u64>, i: int) -> Option<(FontInfoV, int)> {
    if !(0 <= i && i + 1 <= ws.len()) {
        None
    } else {
        match p_bytes(ws, i + 1, ws[i] as nat) {
            None => None,
            Some((family, j)) => {
                if j + 6 <= ws.len() && ws[j] <= u16::MAX && ws[j + 1] <= u16::MAX && ws[j + 2]
                    <= u16::MAX && ws[j + 3] <= u32::MAX {
                    match p_u32s(ws, j + 5, ws[j + 4] as nat) {
                        None => None,
                        Some((coverage, m)) => {
                            if m + 1 <= ws.len() {
                                match p_ligs(ws, m + 1, ws[m] as nat) {
                                    None => None,
                                    Some((ligatures, e)) => Some(
                                        (
                                            FontInfoV {
                                                family,
                                                variant: FontVariant {
                                                    style: ws[j] as u16,
                                                    weight: ws[j + 1] as u16,
                                                    stretch: ws[j + 2] as u16,
                                                },
                                                flags: ws[j + 3] as u32,
                                                coverage,
                                                ligatures,
                                            },
                                            e,
                                        ),
                                    ),
                                }
                            } else {
                                None
                            }
                        },
                    }
                } else {
                    None
                }
            },
        }
    }
}

pub proof fn lemma_font_roundtrip(ws: Seq<u64>, i: int, fi: FontInfoV)
    requires
        0 <= i,
        i + font_words(fi).len() <= ws.len(),
        ws.subrange(i, i + font_words(fi).len()) == font_words(fi),
        fi.family.len() <= u64::MAX,
        fi.coverage.len() <= u64::MAX,
        fi.ligatures.len() <= u64::MAX,
        forall|k: int| 0 <= k < fi.ligatures.len() ==> (#[trigger] fi.ligatures[k]).text.len()
            <= u64::MAX,
    ensures
        p_font(ws, i) == Some((fi, i + font_words(fi).len())),
{
    lemma_bytes_words_index(fi.family);
    lemma_u32s_words_index(fi.coverage);
    let fw = font_words(fi);
    let fam = fi.family.len() as int;
    let cov = fi.coverage.len() as int;
    let j = i + 1 + fam;
    let m = j + 5 + cov;
    assert forall|q: int| 0 <= q < fw.len() implies #[trigger] ws[i + q] == fw[q] by {
        assert(ws.subrange(i, i + fw.len())[q] == ws[i + q]);
    }
    assert(ws[i] == fi.family.len() as u64) by {
        assert(ws.subrange(i, i + fw.len())[0] == ws[i]);
    }
    assert(ws.subrange(i + 1, i + 1 + fam) =~= bytes_words(fi.family)) by {
        assert forall|q: int| 0 <= q < fam implies ws.subrange(i + 1, i + 1 + fam)[q]
            == bytes_words(fi.family)[q] by {
            assert(ws[i + 1 + q] == fw[1 + q]);
        }
    }
    lemma_bytes_roundtrip(ws, i + 1, fi.family);
    let c0 = 1 + fam;
    assert(ws[j] == fi.variant.style as u64) by {
        assert(ws.subrange(i, i + fw.len())[c0] == ws[i + c0]);
    }
    assert(ws[j + 1] == fi.variant.weight as u64) by {
        assert(ws.subrange(i, i + fw.len())[c0 + 1] == ws[i + c0 + 1]);
    }
    assert(ws[j + 2] == fi.variant.stretch as u64) by {
        assert(ws.subrange(i, i + fw.len())[c0 + 2] == ws[i + c0 + 2]);
    }
    assert(ws[j + 3] == fi.flags as u64) by {
        assert(ws.subrange(i, i + fw.len())[c0 + 3] == ws[i + c0 + 3]);
    }
    assert(ws[j + 4] == fi.coverage.len() as u64) by {
        assert(ws.subrange(i, i + fw.len())[c0 + 4] == ws[i + c0 + 4]);
    }
    assert(ws.subrange(j + 5, j + 5 + cov) =~= u32s_words(fi.coverage)) by {
        assert forall|q: int| 0 <= q < cov implies ws.subrange(j + 5, j + 5 + cov)[q]
            == u32s_words(fi.coverage)[q] by {
            assert(ws[i + (1 + fam + 5 + q)] == fw[1 + fam + 5 + q]);
        }
    }
    lemma_u32s_roundtrip(ws, j + 5, fi.coverage);
    assert(ws[m] == fi.ligatures.len() as u64) by {
        assert(ws.subrange(i, i + fw.len())[c0 + 5 + cov] == ws[i + c0 + 5 + cov]);
    }
    assert(ws.subrange(m + 1, m + 1 + ligs_words(fi.ligatures).len()) =~= ligs_words(
        fi.ligatures,
    )) by {
        assert forall|q: int| 0 <= q < ligs_words(fi.ligatures).len() implies ws.subrange(
            m + 1,
            m + 1 + ligs_words(fi.ligatures).len(),
        )[q] == ligs_words(fi.ligatures)[q] by {
            assert(ws[i + (1 + fam + 5 + cov + 1 + q)] == fw[1 + fam + 5 + cov + 1 + q]);
        }
    }
    lemma_ligs_roundtrip(ws, m + 1, fi.ligatures);
    assert(p_font(ws, i) =~~= Some((fi, i + fw.len() as int)));
}

// ---------------------------------------------------------------------------
// Fragments.
// ---------------------------------------------------------------------------

/// The payload tag of a fragment.
pub open spec fn frag_tag(f: FragmentV) -> u64 {
    match f {
        FragmentV::Page { .. } => TAG_PAGE,
        FragmentV::Frame { .. } => TAG_FRAME,
        FragmentV::GlyphRun { .. } => TAG_GLYPH_RUN,
        FragmentV::Shape { .. } => TAG_SHAPE,
        FragmentV::Style { .. } => TAG_STYLE,
        FragmentV::Font(_) => TAG_FONT,
        FragmentV::TextMeta { .. } => TAG_TEXT_META,
    }
}

/// The words of a fragment after the version and tag.
pub open spec fn frag_body_words(f: FragmentV) -> Seq<u64> {
    match f {
        FragmentV::Page { width, height, children } => seq![
            width as u64,
            height as u64,
            children.len() as u64,
        ] + children_words(children),
        FragmentV::Frame { bbox, children } => rect_words(bbox) + seq![children.len() as u64]
            + children_words(children),
        FragmentV::GlyphRun { bbox, font, size, glyphs } => rect_words(bbox) + seq![
            font,
            size as u64,
            glyphs.len() as u64,
        ] + u32s_words(glyphs),
        FragmentV::Shape { bbox, style, points } => rect_words(bbox) + seq![
            style,
            points.len() as u64,
        ] + points_words(points),
        FragmentV::Style { fill, stroke, stroke_width } => seq![
            fill as u64,
            stroke as u64,
            stroke_width as u64,
        ],
        FragmentV::Font(fi) => font_words(fi),
        FragmentV::TextMeta { bbox, text } => rect_words(bbox) + seq![text.len() as u64]
            + bytes_words(text),
    }
}

/// The canonical word image of a fragment.  The content identity of the
/// fragment is the hash of exactly these words.
pub open spec fn frag_words(f: FragmentV) -> Seq<u64> {
    seq![crate::IR_VERSION, frag_tag(f)] + frag_body_words(f)
}

/// Content identity: the word hash of the canonical encoding.
pub open spec fn content_id_of(f: FragmentV) -> ContentId {
    hash_words(frag_words(f))
}

/// Parse a whole fragment payload; the payload must be consumed exactly.
pub open spec fn p_frag(ws: Seq<u64>) -> Option<FragmentV> {
    if ws.len() < 2 || ws[0] != crate::IR_VERSION {
        None
    } else if ws[1] == TAG_PAGE {
        if ws.len() >= 5 && 0 <= ws[2] as i64 <= COORD_LIMIT && 0 <= ws[3] as i64 <= COORD_LIMIT {
            match p_children(ws, 5, ws[4] as nat) {
                Some((children, j)) => if j == ws.len() {
                    Some(FragmentV::Page { width: ws[2] as i64, height: ws[3] as i64, children })
                } else {
                    None
                },
                None => None,
            }
        } else {
            None
        }
    } else if ws[1] == TAG_FRAME {
        if ws.len() >= 7 {
            match p_rect(ws, 2) {
                Some((bbox, _)) => match p_children(ws, 7, ws[6] as nat) {
                    Some((children, j)) => if j == ws.len() {
                        Some(FragmentV::Frame { bbox, children })
                    } else {
                        None
                    },
                    None => None,
                },
                None => None,
            }
        } else {
            None
        }
    } else if ws[1] == TAG_GLYPH_RUN {
        if ws.len() >= 9 && ws[7] <= u32::MAX {
            match p_rect(ws, 2) {
                Some((bbox, _)) => match p_u32s(ws, 9, ws[8] as nat) {
                    Some((glyphs, j)) => if j == ws.len() {
                        Some(FragmentV::GlyphRun { bbox, font: ws[6], size: ws[7] as u32, glyphs })
                    } else {
                        None
                    },
                    None => None,
                },
                None => None,
            }
        } else {
            None
        }
    } else if ws[1] == TAG_SHAPE {
        if ws.len() >= 8 {
            match p_rect(ws, 2) {
                Some((bbox, _)) => match p_points(ws, 8, ws[7] as nat) {
                    Some((points, j)) => if j == ws.len() {
                        Some(FragmentV::Shape { bbox, style: ws[6], points })
                    } else {
                        None
                    },
                    None => None,
                },
                None => None,
            }
        } else {
            None
        }
    } else if ws[1] == TAG_STYLE {
        if ws.len() == 5 && ws[2] <= u32::MAX && ws[3] <= u32::MAX && ws[4] <= u32::MAX {
            Some(
                FragmentV::Style {
                    fill: ws[2] as u32,
                    stroke: ws[3] as u32,
                    stroke_width: ws[4] as u32,
                },
            )
        } else {
            None
        }
    } else if ws[1] == TAG_FONT {
        match p_font(ws, 2) {
            Some((fi, j)) => if j == ws.len() {
                Some(FragmentV::Font(fi))
            } else {
                None
            },
            None => None,
        }
    } else if ws[1] == TAG_TEXT_META {
        if ws.len() >= 7 {
            match p_rect(ws, 2) {
                Some((bbox, _)) => match p_bytes(ws, 7, ws[6] as nat) {
                    Some((text, j)) => if j == ws.len() {
                        Some(FragmentV::TextMeta { bbox, text })
                    } else {
                        None
                    },
                    None => None,
                },
                None => None,
            }
        } else {
            None
        }
    } else {
        None
    }
}

/// A well-formed fragment parses back from its canonical words.
pub proof fn lemma_frag_roundtrip(f: FragmentV)
    requires
        f.wf(),
    ensures
        p_frag(frag_words(f)) == Some(f),
{
    let ws = frag_words(f);
    let body = frag_body_words(f);
    assert(ws[0] == crate::IR_VERSION);
    assert(ws[1] == frag_tag(f));
    match f {
        FragmentV::Page { width, height, children } => {
            lemma_children_words_index(children);
            assert(ws.len() == 5 + 3 * children.len() as int);
            assert(ws[2] == width as u64);
            assert(ws[3] == height as u64);
            assert(ws[4] == children.len() as u64);
            lemma_i64_word_roundtrip(width);
            lemma_i64_word_roundtrip(height);
            assert(ws.subrange(5, 5 + 3 * children.len() as int) =~= children_words(children)) by {
                assert forall|q: int| 0 <= q < 3 * children.len() implies ws.subrange(
                    5,
                    5 + 3 * children.len() as int,
                )[q] == children_words(children)[q] by {
                    assert(ws.subrange(5, 5 + 3 * children.len() as int)[q] == ws[5 + q]);
                    assert(ws[5 + q] == body[3 + q]);
                }
            }
            lemma_children_roundtrip(ws, 5, children);
            assert(p_frag(ws) =~~= Some(f));
        },
        FragmentV::Frame { bbox, children } => {
            lemma_children_words_index(children);
            assert(ws.len() == 7 + 3 * children.len() as int);
            assert(ws.subrange(2, 6) =~= rect_words(bbox)) by {
                assert forall|q: int| 0 <= q < 4 implies ws.subrange(2, 6)[q] == rect_words(
                    bbox,
                )[q] by {
                    assert(ws.subrange(2, 6)[q] == ws[2 + q]);
                    assert(ws[2 + q] == body[q]);
                }
            }
            lemma_rect_roundtrip(ws, 2, bbox);
            assert(ws[6] == children.len() as u64) by {
                assert(ws[6] == body[4]);
            }
            assert(ws.subrange(7, 7 + 3 * children.len() as int) =~= children_words(children)) by {
                assert forall|q: int| 0 <= q < 3 * children.len() implies ws.subrange(
                    7,
                    7 + 3 * children.len() as int,
                )[q] == children_words(children)[q] by {
                    assert(ws.subrange(7, 7 + 3 * children.len() as int)[q] == ws[7 + q]);
                    assert(ws[7 + q] == body[5 + q]);
                }
            }
            lemma_children_roundtrip(ws, 7, children);
            assert(p_frag(ws) =~~= Some(f));
        },
        FragmentV::GlyphRun { bbox, font, size, glyphs } => {
            lemma_u32s_words_index(glyphs);
            assert(ws.len() == 9 + glyphs.len() as int);
            assert(ws.subrange(2, 6) =~= rect_words(bbox)) by {
                assert forall|q: int| 0 <= q < 4 implies ws.subrange(2, 6)[q] == rect_words(
                    bbox,
                )[q] by {
                    assert(ws.subrange(2, 6)[q] == ws[2 + q]);
                    assert(ws[2 + q] == body[q]);
                }
            }
            lemma_rect_roundtrip(ws, 2, bbox);
            assert(ws[6] == font) by {
                assert(ws[6] == body[4]);
            }
            assert(ws[7] == size as u64) by {
                assert(ws[7] == body[5]);
            }
            assert(ws[8] == glyphs.len() as u64) by {
                assert(ws[8] == body[6]);
            }
            assert(ws.subrange(9, 9 + glyphs.len() as int) =~= u32s_words(glyphs)) by {
                assert forall|q: int| 0 <= q < glyphs.len() implies ws.subrange(
                    9,
                    9 + glyphs.len() as int,
                )[q] == u32s_words(glyphs)[q] by {
                    assert(ws.subrange(9, 9 + glyphs.len() as int)[q] == ws[9 + q]);
                    assert(ws[9 + q] == body[7 + q]);
                }
            }
            lemma_u32s_roundtrip(ws, 9, glyphs);
            assert(p_frag(ws) =~~= Some(f));
        },
        FragmentV::Shape { bbox, style, points } => {
            lemma_points_words_index(points);
            assert(ws.len() == 8 + 2 * points.len() as int);
            assert(ws.subrange(2, 6) =~= rect_words(bbox)) by {
                assert forall|q: int| 0 <= q < 4 implies ws.subrange(2, 6)[q] == rect_words(
                    bbox,
                )[q] by {
                    assert(ws.subrange(2, 6)[q] == ws[2 + q]);
                    assert(ws[2 + q] == body[q]);
                }
            }
            lemma_rect_roundtrip(ws, 2, bbox);
            assert(ws[6] == style) by {
                assert(ws[6] == body[4]);
            }
            assert(ws[7] == points.len() as u64) by {
                assert(ws[7] == body[5]);
            }
            assert(ws.subrange(8, 8 + 2 * points.len() as int) =~= points_words(points)) by {
                assert forall|q: int| 0 <= q < 2 * points.len() implies ws.subrange(
                    8,
                    8 + 2 * points.len() as int,
                )[q] == points_words(points)[q] by {
                    assert(ws.subrange(8, 8 + 2 * points.len() as int)[q] == ws[8 + q]);
                    assert(ws[8 + q] == body[6 + q]);
                }
            }
            lemma_points_roundtrip(ws, 8, points);
            assert(p_frag(ws) =~~= Some(f));
        },
        FragmentV::Style { fill, stroke, stroke_width } => {
            assert(ws.len() == 5);
            assert(ws[2] == fill as u64);
            assert(ws[3] == stroke as u64);
            assert(ws[4] == stroke_width as u64);
            assert(p_frag(ws) =~~= Some(f));
        },
        FragmentV::Font(fi) => {
            assert(ws.subrange(2, 2 + font_words(fi).len() as int) =~= font_words(fi)) by {
                assert forall|q: int| 0 <= q < font_words(fi).len() implies ws.subrange(
                    2,
                    2 + font_words(fi).len() as int,
                )[q] == font_words(fi)[q] by {
                    assert(ws.subrange(2, 2 + font_words(fi).len() as int)[q] == ws[2 + q]);
                    assert(ws[2 + q] == body[q]);
                }
            }
            lemma_font_roundtrip(ws, 2, fi);
            assert(p_frag(ws) =~~= Some(f));
        },
        FragmentV::TextMeta { bbox, text } => {
            lemma_bytes_words_index(text);
            assert(ws.len() == 7 + text.len() as int);
            assert(ws.subrange(2, 6) =~= rect_words(bbox)) by {
                assert forall|q: int| 0 <= q < 4 implies ws.subrange(2, 6)[q] == rect_words(
                    bbox,
                )[q] by {
                    assert(ws.subrange(2, 6)[q] == ws[2 + q]);
                    assert(ws[2 + q] == body[q]);
                }
            }
            lemma_rect_roundtrip(ws, 2, bbox);
            assert(ws[6] == text.len() as u64) by {
                assert(ws[6] == body[4]);
            }
            assert(ws.subrange(7, 7 + text.len() as int) =~= bytes_words(text)) by {
                assert forall|q: int| 0 <= q < text.len() implies ws.subrange(
                    7,
                    7 + text.len() as int,
                )[q] == bytes_words(text)[q] by {
                    assert(ws.subrange(7, 7 + text.len() as int)[q] == ws[7 + q]);
                    assert(ws[7 + q] == body[5 + q]);
                }
            }
            lemma_bytes_roundtrip(ws, 7, text);
            assert(p_frag(ws) =~~= Some(f));
        },
    }
}

/// Every ligature a parse yields keeps its text length within one word.
pub proof fn lemma_p_ligs_wf(ws: Seq<u64>, i: int, n: nat)
    ensures
        p_ligs(ws, i, n) matches Some((ls, _)) ==> {
            &&& ls.len() == n
            &&& forall|k: int| 0 <= k < ls.len() ==> (#[trigger] ls[k]).text.len() <= u64::MAX
        },
    decreases n,
{
    if n > 0 {
        match p_lig(ws, i) {
            Some((l, j)) => {
                lemma_p_ligs_wf(ws, j, (n - 1) as nat);
            },
            None => {},
        }
    }
}

/// A payload that parses is well-formed.
pub proof fn lemma_p_frag_wf(ws: Seq<u64>)
    ensures
        p_frag(ws) matches Some(f) ==> f.wf(),
{
    match p_frag(ws) {
        None => {},
        Some(f) => match f {
            FragmentV::Page { width, height, children } => {
                assert forall|k: int| 0 <= k < children.len() implies (
                #[trigger] children[k]).wf() by {
                    assert(children[k] == child_at(ws, 5 + 3 * k));
                }
            },
            FragmentV::Frame { bbox, children } => {
                assert forall|k: int| 0 <= k < children.len() implies (
                #[trigger] children[k]).wf() by {
                    assert(children[k] == child_at(ws, 7 + 3 * k));
                }
            },
            FragmentV::GlyphRun { .. } => {},
            FragmentV::Shape { bbox, style, points } => {
                assert forall|k: int| 0 <= k < points.len() implies (
                #[trigger] points[k]).bounded() by {
                    assert(points[k] == point_at(ws, 8 + 2 * k));
                }
            },
            FragmentV::Style { .. } => {},
            FragmentV::Font(fi) => {
                match p_bytes(ws, 3, ws[2] as nat) {
                    Some((family, j)) => {
                        match p_u32s(ws, j + 5, ws[j + 4] as nat) {
                            Some((coverage, m)) => {
                                lemma_p_ligs_wf(ws, m + 1, ws[m] as nat);
                            },
                            None => {},
                        }
                    },
                    None => {},
                }
            },
            FragmentV::TextMeta { .. } => {},
        },
    }
}

// ---------------------------------------------------------------------------
// Snapshots.
// ---------------------------------------------------------------------------

/// The canonical word image of a document snapshot.
pub open spec fn snapshot_words(s: DocumentSnapshotV) -> Seq<u64> {
    seq![crate::IR_VERSION, s.info.title.len() as u64] + bytes_words(s.info.title) + seq![
        s.info.language.len() as u64,
    ] + bytes_words(s.info.language) + seq![s.pages.len() as u64] + page_entries_words(s.pages)
}

/// Content identity of a snapshot payload.
pub open spec fn snapshot_id_of(s: DocumentSnapshotV) -> ContentId {
    hash_words(snapshot_words(s))
}

/// Parse a whole snapshot payload; the payload must be consumed exactly.
pub open spec fn p_snapshot(ws: Seq<u64>) -> Option<DocumentSnapshotV> {
    if ws.len() < 2 || ws[0] != crate::IR_VERSION {
        None
    } else {
        match p_bytes(ws, 2, ws[1] as nat) {
            None => None,
            Some((title, j)) => if j + 1 <= ws.len() {
                match p_bytes(ws, j + 1, ws[j] as nat) {
                    None => None,
                    Some((language, m)) => if m + 1 <= ws.len() {
                        match p_page_entries(ws, m + 1, ws[m] as nat) {
                            None => None,
                            Some((pages, e)) => if e == ws.len() {
                                Some(
                                    DocumentSnapshotV {
                                        info: DocumentInfoV { title, language },
                                        pages,
                                    },
                                )
                            } else {
                                None
                            },
                        }
                    } else {
                        None
                    },
                }
            } else {
                None
            },
        }
    }
}

/// A well-formed snapshot parses back from its canonical words.
pub proof fn lemma_snapshot_roundtrip(s: DocumentSnapshotV)
    requires
        s.wf(),
    ensures
        p_snapshot(snapshot_words(s)) == Some(s),
{
    let ws = snapshot_words(s);
    lemma_bytes_words_index(s.info.title);
    lemma_bytes_words_index(s.info.language);
    lemma_page_entries_words_index(s.pages);
    let tl = s.info.title.len() as int;
    let ll = s.info.language.len() as int;
    let pl = s.pages.len() as int;
    let j = 2 + tl;
    let m = j + 1 + ll;
    assert(ws.len() == 2 + tl + 1 + ll + 1 + 5 * pl);
    assert(ws[0] == crate::IR_VERSION);
    assert(ws[1] == s.info.title.len() as u64);
    assert(ws.subrange(2, 2 + tl) =~= bytes_words(s.info.title)) by {
        assert forall|q: int| 0 <= q < tl implies ws.subrange(2, 2 + tl)[q] == bytes_words(
            s.info.title,
        )[q] by {
            assert(ws.subrange(2, 2 + tl)[q] == ws[2 + q]);
        }
    }
    lemma_bytes_roundtrip(ws, 2, s.info.title);
    assert(ws[j] == s.info.language.len() as u64);
    assert(ws.subrange(j + 1, j + 1 + ll) =~= bytes_words(s.info.language)) by {
        assert forall|q: int| 0 <= q < ll implies ws.subrange(j + 1, j + 1 + ll)[q]
            == bytes_words(s.info.language)[q] by {
            assert(ws.subrange(j + 1, j + 1 + ll)[q] == ws[j + 1 + q]);
        }
    }
    lemma_bytes_roundtrip(ws, j + 1, s.info.language);
    assert(ws[m] == s.pages.len() as u64);
    assert(ws.subrange(m + 1, m + 1 + 5 * pl) =~= page_entries_words(s.pages)) by {
        assert forall|q: int| 0 <= q < 5 * pl implies ws.subrange(m + 1, m + 1 + 5 * pl)[q]
            == page_entries_words(s.pages)[q] by {
            assert(ws.subrange(m + 1, m + 1 + 5 * pl)[q] == ws[m + 1 + q]);
        }
    }
    lemma_page_entries_roundtrip(ws, m + 1, s.pages);
    assert(p_snapshot(ws) =~~= Some(s));
}

/// A snapshot payload that parses is well-formed.
pub proof fn lemma_p_snapshot_wf(ws: Seq<u64>)
    ensures
        p_snapshot(ws) matches Some(s) ==> s.wf(),
{
    match p_snapshot(ws) {
        None => {},
        Some(s) => {
            match p_bytes(ws, 2, ws[1] as nat) {
                None => {},
                Some((title, j)) => {
                    match p_bytes(ws, j + 1, ws[j] as nat) {
                        None => {},
                        Some((language, m)) => {
                            assert forall|k: int| 0 <= k < s.pages.len() implies (
                            #[trigger] s.pages[k]).frame.bounded() by {
                                assert(s.pages[k] == page_entry_at(ws, m + 1 + 5 * k));
                            }
                        },
                    }
                },
            }
        },
    }
}

} // verus!
