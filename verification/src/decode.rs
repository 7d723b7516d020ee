//! Executable decoders: exact counterparts of the parsers in `codec`.
//!
//! Every decoder returns precisely what the corresponding spec parser yields,
//! so a decoder result of `None` really means the words carry no well-formed
//! value, and a decoded value is the one the words canonically encode.

use crate::codec::{
    child_at, p_bytes, p_children, p_font, p_frag, p_lig, p_ligs, p_page_entries, p_points,
    p_rect, p_snapshot, p_u32s, page_entry_at, point_at, rect_at, TAG_FONT, TAG_FRAME,
    TAG_GLYPH_RUN, TAG_PAGE, TAG_SHAPE, TAG_STYLE, TAG_TEXT_META,
};
use crate::geom::{Point, Rect, COORD_LIMIT};
use crate::ir::{
    ChildRef, DocumentInfo, DocumentSnapshot, FontInfo, FontVariant, Fragment, Ligature,
    PageEntry,
};
use crate::wire::word_to_i64;
use crate::IR_VERSION;
use vstd::prelude::*;

verus! {

/// Read the rectangle at `i`; `None` when out of range or not bounded.
fn parse_rect(ws: &Vec<u64>, i: usize) -> (r: Option<Rect>)
    requires
        i <= ws@.len(),
    ensures
        match r {
            Some(rect) => p_rect(ws@, i as int) == Some((rect, i as int + 4)) && rect == rect_at(
                ws@,
                i as int,
            ),
            None => p_rect(ws@, i as int) is None,
        },
{
    let len = ws.len();
    if len - i < 4 {
        return None;
    }
    let rect = Rect {
        x_min: word_to_i64(ws[i]),
        y_min: word_to_i64(ws[i + 1]),
        x_max: word_to_i64(ws[i + 2]),
        y_max: word_to_i64(ws[i + 3]),
    };
    if rect.x_min > rect.x_max || rect.y_min > rect.y_max || rect.x_min < -COORD_LIMIT
        || rect.x_max > COORD_LIMIT || rect.y_min < -COORD_LIMIT || rect.y_max > COORD_LIMIT {
        assert(!rect_at(ws@, i as int).bounded());
        return None;
    }
    Some(rect)
}

/// Read `n` child references laid out at `i`.
fn parse_children(ws: &Vec<u64>, i: usize, n_word: u64) -> (r: Option<(Vec<ChildRef>, usize)>)
    requires
        i <= ws@.len(),
    ensures
        match r {
            Some((cs, j)) => p_children(ws@, i as int, n_word as nat) == Some((cs@, j as int))
                && j <= ws@.len(),
            None => p_children(ws@, i as int, n_word as nat) is None,
        },
{
    let len = ws.len();
    if n_word > len as u64 {
        return None;
    }
    let n = n_word as usize;
    if (len - i) / 3 < n {
        proof {
            let avail = (len - i) as int;
            let q = avail / 3;
            assert(3 * q <= avail && avail < 3 * (q + 1)) by (nonlinear_arith)
                requires
                    avail >= 0,
                    q == avail / 3,
            ;
        }
        return None;
    }
    let mut cs: Vec<ChildRef> = Vec::new();
    let mut k: usize = 0;
    while k < n
        invariant
            k <= n,
            n as int == n_word as int,
            i + 3 * n <= len,
            len == ws@.len(),
            cs@.len() == k,
            forall|q: int| 0 <= q < k ==> #[trigger] cs@[q] == child_at(ws@, i + 3 * q),
            forall|q: int| 0 <= q < k ==> (#[trigger] child_at(ws@, i + 3 * q)).wf(),
        decreases n - k,
    {
        let base = i + 3 * k;
        let dx = word_to_i64(ws[base + 1]);
        let dy = word_to_i64(ws[base + 2]);
        if dx < -COORD_LIMIT || dx > COORD_LIMIT || dy < -COORD_LIMIT || dy > COORD_LIMIT {
            proof {
                let iw = i as int;
                let nn = n_word as nat;
                assert(!(child_at(ws@, iw + 3 * (k as int))).wf());
                assert(exists|q: int|
                    0 <= q < nn && !(#[trigger] child_at(ws@, iw + 3 * q)).wf()) by {
                    assert((0 <= k && (k as int) < nn) && !(child_at(ws@, iw + 3 * (k as int))).wf());
                }
            }
            return None;
        }
        cs.push(ChildRef { id: ws[base], dx, dy });
        k = k + 1;
    }
    proof {
        assert(cs@ =~= Seq::new(n_word as nat, |q: int| child_at(ws@, i + 3 * q)));
    }
    Some((cs, i + 3 * n))
}

/// Read `n` path points laid out at `i`.
fn parse_points(ws: &Vec<u64>, i: usize, n_word: u64) -> (r: Option<(Vec<Point>, usize)>)
    requires
        i <= ws@.len(),
    ensures
        match r {
            Some((ps, j)) => p_points(ws@, i as int, n_word as nat) == Some((ps@, j as int))
                && j <= ws@.len(),
            None => p_points(ws@, i as int, n_word as nat) is None,
        },
{
    let len = ws.len();
    if n_word > len as u64 {
        return None;
    }
    let n = n_word as usize;
    if (len - i) / 2 < n {
        proof {
            let avail = (len - i) as int;
            let q = avail / 2;
            assert(2 * q <= avail && avail < 2 * (q + 1)) by (nonlinear_arith)
                requires
                    avail >= 0,
                    q == avail / 2,
            ;
        }
        return None;
    }
    let mut ps: Vec<Point> = Vec::new();
    let mut k: usize = 0;
    while k < n
        invariant
            k <= n,
            n as int == n_word as int,
            i + 2 * n <= len,
            len == ws@.len(),
            ps@.len() == k,
            forall|q: int| 0 <= q < k ==> #[trigger] ps@[q] == point_at(ws@, i + 2 * q),
            forall|q: int| 0 <= q < k ==> (#[trigger] point_at(ws@, i + 2 * q)).bounded(),
        decreases n - k,
    {
        let base = i + 2 * k;
        let x = word_to_i64(ws[base]);
        let y = word_to_i64(ws[base + 1]);
        if x < -COORD_LIMIT || x > COORD_LIMIT || y < -COORD_LIMIT || y > COORD_LIMIT {
            proof {
                let iw = i as int;
                let nn = n_word as nat;
                assert(!(point_at(ws@, iw + 2 * (k as int))).bounded());
                assert(exists|q: int|
                    0 <= q < nn && !(#[trigger] point_at(ws@, iw + 2 * q)).bounded()) by {
                    assert((0 <= k && (k as int) < nn) && !(point_at(ws@, iw + 2 * (k as int))).bounded());
                }
            }
            return None;
        }
        ps.push(Point { x, y });
        k = k + 1;
    }
    proof {
        assert(ps@ =~= Seq::new(n_word as nat, |q: int| point_at(ws@, i + 2 * q)));
    }
    Some((ps, i + 2 * n))
}

/// Read `n` 32-bit values laid out at `i`.
fn parse_u32s(ws: &Vec<u64>, i: usize, n_word: u64) -> (r: Option<(Vec<u32>, usize)>)
    requires
        i <= ws@.len(),
    ensures
        match r {
            Some((xs, j)) => p_u32s(ws@, i as int, n_word as nat) == Some((xs@, j as int)) && j
                <= ws@.len(),
            None => p_u32s(ws@, i as int, n_word as nat) is None,
        },
{
    let len = ws.len();
    if n_word > len as u64 {
        return None;
    }
    let n = n_word as usize;
    if len - i < n {
        return None;
    }
    let mut xs: Vec<u32> = Vec::new();
    let mut k: usize = 0;
    while k < n
        invariant
            k <= n,
            n as int == n_word as int,
            i + n <= len,
            len == ws@.len(),
            xs@.len() == k,
            forall|q: int| 0 <= q < k ==> #[trigger] xs@[q] == ws@[i + q] as u32,
            forall|q: int| 0 <= q < k ==> #[trigger] ws@[i + q] <= u32::MAX,
        decreases n - k,
    {
        if ws[i + k] > u32::MAX as u64 {
            proof {
                let iw = i as int;
                let nn = n_word as nat;
                assert(exists|q: int| 0 <= q < nn && #[trigger] ws@[iw + q] > u32::MAX) by {
                    assert((0 <= k && (k as int) < nn) && ws@[iw + k as int] > u32::MAX);
                }
            }
            return None;
        }
        xs.push(ws[i + k] as u32);
        k = k + 1;
    }
    proof {
        assert(xs@ =~= Seq::new(n_word as nat, |q: int| ws@[i + q] as u32));
    }
    Some((xs, i + n))
}

/// Read `n` bytes laid out at `i`, one byte per word.
fn parse_bytes(ws: &Vec<u64>, i: usize, n_word: u64) -> (r: Option<(Vec<u8>, usize)>)
    requires
        i <= ws@.len(),
    ensures
        match r {
            Some((bs, j)) => p_bytes(ws@, i as int, n_word as nat) == Some((bs@, j as int)) && j
                <= ws@.len(),
            None => p_bytes(ws@, i as int, n_word as nat) is None,
        },
{
    let len = ws.len();
    if n_word > len as u64 {
        return None;
    }
    let n = n_word as usize;
    if len - i < n {
        return None;
    }
    let mut bs: Vec<u8> = Vec::new();
    let mut k: usize = 0;
    while k < n
        invariant
            k <= n,
            n as int == n_word as int,
            i + n <= len,
            len == ws@.len(),
            bs@.len() == k,
            forall|q: int| 0 <= q < k ==> #[trigger] bs@[q] == ws@[i + q] as u8,
            forall|q: int| 0 <= q < k ==> #[trigger] ws@[i + q] <= u8::MAX,
        decreases n - k,
    {
        if ws[i + k] > u8::MAX as u64 {
            proof {
                let iw = i as int;
                let nn = n_word as nat;
                assert(exists|q: int| 0 <= q < nn && #[trigger] ws@[iw + q] > u8::MAX) by {
                    assert((0 <= k && (k as int) < nn) && ws@[iw + k as int] > u8::MAX);
                }
            }
            return None;
        }
        bs.push(ws[i + k] as u8);
        k = k + 1;
    }
    proof {
        assert(bs@ =~= Seq::new(n_word as nat, |q: int| ws@[i + q] as u8));
    }
    Some((bs, i + n))
}

/// Read `n` page entries laid out at `i`.
fn parse_page_entries(ws: &Vec<u64>, i: usize, n_word: u64) -> (r: Option<(Vec<PageEntry>, usize)>)
    requires
        i <= ws@.len(),
    ensures
        match r {
            Some((ps, j)) => p_page_entries(ws@, i as int, n_word as nat) == Some((ps@, j as int))
                && j <= ws@.len(),
            None => p_page_entries(ws@, i as int, n_word as nat) is None,
        },
{
    let len = ws.len();
    if n_word > len as u64 {
        return None;
    }
    let n = n_word as usize;
    if (len - i) / 5 < n {
        proof {
            let avail = (len - i) as int;
            let q = avail / 5;
            assert(5 * q <= avail && avail < 5 * (q + 1)) by (nonlinear_arith)
                requires
                    avail >= 0,
                    q == avail / 5,
            ;
        }
        return None;
    }
    let mut ps: Vec<PageEntry> = Vec::new();
    let mut k: usize = 0;
    while k < n
        invariant
            k <= n,
            n as int == n_word as int,
            i + 5 * n <= len,
            len == ws@.len(),
            ps@.len() == k,
            forall|q: int| 0 <= q < k ==> #[trigger] ps@[q] == page_entry_at(ws@, i + 5 * q),
            forall|q: int|
                0 <= q < k ==> (#[trigger] page_entry_at(ws@, i + 5 * q)).frame.bounded(),
        decreases n - k,
    {
        let base = i + 5 * k;
        let frame = Rect {
            x_min: word_to_i64(ws[base + 1]),
            y_min: word_to_i64(ws[base + 2]),
            x_max: word_to_i64(ws[base + 3]),
            y_max: word_to_i64(ws[base + 4]),
        };
        if frame.x_min > frame.x_max || frame.y_min > frame.y_max || frame.x_min < -COORD_LIMIT
            || frame.x_max > COORD_LIMIT || frame.y_min < -COORD_LIMIT || frame.y_max
            > COORD_LIMIT {
            proof {
                let iw = i as int;
                let nn = n_word as nat;
                assert(!(page_entry_at(ws@, iw + 5 * (k as int))).frame.bounded());
                assert(exists|q: int|
                    0 <= q < nn && !(#[trigger] page_entry_at(ws@, iw + 5 * q)).frame.bounded())
                    by {
                    assert((0 <= k && (k as int) < nn) && !(page_entry_at(
                        ws@,
                        iw + 5 * (k as int),
                    )).frame.bounded());
                }
            }
            return None;
        }
        ps.push(PageEntry { id: ws[base], frame });
        k = k + 1;
    }
    proof {
        assert(ps@ =~= Seq::new(n_word as nat, |q: int| page_entry_at(ws@, i + 5 * q)));
    }
    Some((ps, i + 5 * n))
}

/// Read one ligature laid out at `i`.
fn parse_lig(ws: &Vec<u64>, i: usize) -> (r: Option<(Ligature, usize)>)
    requires
        i <= ws@.len(),
    ensures
        match r {
            Some((l, j)) => p_lig(ws@, i as int) == Some((l@, j as int)) && j <= ws@.len(),
            None => p_lig(ws@, i as int) is None,
        },
{
    let len = ws.len();
    if len - i < 2 {
        return None;
    }
    if ws[i] > u16::MAX as u64 {
        return None;
    }
    match parse_bytes(ws, i + 2, ws[i + 1]) {
        None => None,
        Some((text, j)) => Some((Ligature { glyph: ws[i] as u16, text }, j)),
    }
}

/// Read `n` ligatures laid out at `i`.
fn parse_ligs(ws: &Vec<u64>, i: usize, n_word: u64) -> (r: Option<(Vec<Ligature>, usize)>)
    requires
        i <= ws@.len(),
    ensures
        match r {
            Some((ls, j)) => p_ligs(ws@, i as int, n_word as nat) == Some(
                (ls@.map_values(|l: Ligature| l@), j as int),
            ) && j <= ws@.len(),
            None => p_ligs(ws@, i as int, n_word as nat) is None,
        },
{
    let mut ls: Vec<Ligature> = Vec::new();
    let mut k: u64 = 0;
    let mut cur: usize = i;
    proof {
        assert(ls@.map_values(|l: Ligature| l@) =~= Seq::<crate::ir::LigatureV>::empty());
    }
    while k < n_word
        invariant
            k <= n_word,
            cur <= ws@.len(),
            ({
                let whole = p_ligs(ws@, i as int, n_word as nat);
                let rest = p_ligs(ws@, cur as int, (n_word - k) as nat);
                match rest {
                    Some((tail, e)) => whole == Some(
                        (ls@.map_values(|l: Ligature| l@) + tail, e),
                    ),
                    None => whole is None,
                }
            }),
        decreases n_word - k,
    {
        match parse_lig(ws, cur) {
            None => {
                proof {
                    assert(p_ligs(ws@, cur as int, (n_word - k) as nat) is None);
                }
                return None;
            },
            Some((l, j)) => {
                proof {
                    let lv = l@;
                    let pre = ls@.map_values(|l: Ligature| l@);
                    let rest2 = p_ligs(ws@, j as int, (n_word - k - 1) as nat);
                    match rest2 {
                        Some((tail2, e2)) => {
                            assert(p_ligs(ws@, cur as int, (n_word - k) as nat) == Some(
                                (seq![lv] + tail2, e2),
                            ));
                            assert(pre + (seq![lv] + tail2) =~= pre.push(lv) + tail2);
                            assert(ls@.push(l).map_values(|l: Ligature| l@) =~= pre.push(lv));
                        },
                        None => {
                            assert(p_ligs(ws@, cur as int, (n_word - k) as nat) is None);
                        },
                    }
                }
                ls.push(l);
                cur = j;
                k = k + 1;
            },
        }
    }
    proof {
        assert(p_ligs(ws@, cur as int, 0) == Some((Seq::<crate::ir::LigatureV>::empty(), cur as int)));
        assert(ls@.map_values(|l: Ligature| l@) + Seq::<crate::ir::LigatureV>::empty()
            =~= ls@.map_values(|l: Ligature| l@));
    }
    Some((ls, cur))
}

/// Read a whole font description laid out at `i`.
fn parse_font(ws: &Vec<u64>, i: usize) -> (r: Option<(FontInfo, usize)>)
    requires
        i <= ws@.len(),
    ensures
        match r {
            Some((fi, j)) => p_font(ws@, i as int) == Some((fi@, j as int)) && j <= ws@.len(),
            None => p_font(ws@, i as int) is None,
        },
{
    let len = ws.len();
    if len - i < 1 {
        return None;
    }
    match parse_bytes(ws, i + 1, ws[i]) {
        None => None,
        Some((family, j)) => {
            if len - j < 6 {
                return None;
            }
            if ws[j] > u16::MAX as u64 || ws[j + 1] > u16::MAX as u64 || ws[j + 2] > u16::MAX
                as u64 || ws[j + 3] > u32::MAX as u64 {
                return None;
            }
            match parse_u32s(ws, j + 5, ws[j + 4]) {
                None => None,
                Some((coverage, m)) => {
                    if len - m < 1 {
                        return None;
                    }
                    match parse_ligs(ws, m + 1, ws[m]) {
                        None => None,
                        Some((ligatures, e)) => {
                            let fi = FontInfo {
                                family,
                                variant: FontVariant {
                                    style: ws[j] as u16,
                                    weight: ws[j + 1] as u16,
                                    stretch: ws[j + 2] as u16,
                                },
                                flags: ws[j + 3] as u32,
                                coverage,
                                ligatures,
                            };
                            proof {
                                assert(fi@.ligatures =~= ligatures@.map_values(
                                    |l: Ligature| l@,
                                ));
                                assert(p_font(ws@, i as int) =~~= Some((fi@, e as int)));
                            }
                            Some((fi, e))
                        },
                    }
                },
            }
        },
    }
}

/// Decode a fragment payload.  Yields exactly what the spec parser yields: a
/// decoded fragment is the canonical value of the words, and `None` means the
/// payload is malformed.
pub fn decode_fragment(ws: &Vec<u64>) -> (r: Option<Fragment>)
    ensures
        match r {
            Some(f) => p_frag(ws@) == Some(f@),
            None => p_frag(ws@) is None,
        },
{
    let len = ws.len();
    if len < 2 {
        return None;
    }
    if ws[0] != IR_VERSION {
        return None;
    }
    let tag = ws[1];
    if tag == TAG_PAGE {
        if len < 5 {
            return None;
        }
        let width = word_to_i64(ws[2]);
        let height = word_to_i64(ws[3]);
        if width < 0 || width > COORD_LIMIT || height < 0 || height > COORD_LIMIT {
            return None;
        }
        match parse_children(ws, 5, ws[4]) {
            None => None,
            Some((children, j)) => {
                if j != len {
                    return None;
                }
                Some(Fragment::Page { width, height, children })
            },
        }
    } else if tag == TAG_FRAME {
        if len < 7 {
            return None;
        }
        match parse_rect(ws, 2) {
            None => None,
            Some(bbox) => match parse_children(ws, 7, ws[6]) {
                None => None,
                Some((children, j)) => {
                    if j != len {
                        return None;
                    }
                    Some(Fragment::Frame { bbox, children })
                },
            },
        }
    } else if tag == TAG_GLYPH_RUN {
        if len < 9 {
            return None;
        }
        if ws[7] > u32::MAX as u64 {
            return None;
        }
        match parse_rect(ws, 2) {
            None => None,
            Some(bbox) => match parse_u32s(ws, 9, ws[8]) {
                None => None,
                Some((glyphs, j)) => {
                    if j != len {
                        return None;
                    }
                    Some(Fragment::GlyphRun { bbox, font: ws[6], size: ws[7] as u32, glyphs })
                },
            },
        }
    } else if tag == TAG_SHAPE {
        if len < 8 {
            return None;
        }
        match parse_rect(ws, 2) {
            None => None,
            Some(bbox) => match parse_points(ws, 8, ws[7]) {
                None => None,
                Some((points, j)) => {
                    if j != len {
                        return None;
                    }
                    Some(Fragment::Shape { bbox, style: ws[6], points })
                },
            },
        }
    } else if tag == TAG_STYLE {
        if len != 5 {
            return None;
        }
        if ws[2] > u32::MAX as u64 || ws[3] > u32::MAX as u64 || ws[4] > u32::MAX as u64 {
            return None;
        }
        Some(Fragment::Style { fill: ws[2] as u32, stroke: ws[3] as u32, stroke_width: ws[4] as u32 })
    } else if tag == TAG_FONT {
        match parse_font(ws, 2) {
            None => None,
            Some((fi, j)) => {
                if j != len {
                    return None;
                }
                Some(Fragment::Font(fi))
            },
        }
    } else if tag == TAG_TEXT_META {
        if len < 7 {
            return None;
        }
        match parse_rect(ws, 2) {
            None => None,
            Some(bbox) => match parse_bytes(ws, 7, ws[6]) {
                None => None,
                Some((text, j)) => {
                    if j != len {
                        return None;
                    }
                    Some(Fragment::TextMeta { bbox, text })
                },
            },
        }
    } else {
        None
    }
}

/// Decode a snapshot payload; exact counterpart of the spec parser.
pub fn decode_snapshot(ws: &Vec<u64>) -> (r: Option<DocumentSnapshot>)
    ensures
        match r {
            Some(s) => p_snapshot(ws@) == Some(s@),
            None => p_snapshot(ws@) is None,
        },
{
    let len = ws.len();
    if len < 2 {
        return None;
    }
    if ws[0] != IR_VERSION {
        return None;
    }
    match parse_bytes(ws, 2, ws[1]) {
        None => None,
        Some((title, j)) => {
            if len - j < 1 {
                return None;
            }
            match parse_bytes(ws, j + 1, ws[j]) {
                None => None,
                Some((language, m)) => {
                    if len - m < 1 {
                        return None;
                    }
                    match parse_page_entries(ws, m + 1, ws[m]) {
                        None => None,
                        Some((pages, e)) => {
                            if e != len {
                                return None;
                            }
                            Some(DocumentSnapshot { info: DocumentInfo { title, language }, pages })
                        },
                    }
                },
            }
        },
    }
}

} // verus!
