//! Executable encoders producing the canonical word images of `codec`.

use crate::codec::{
    bytes_words, child_words, children_words, font_words, frag_words, lemma_ligs_words_push,
    lig_words, ligs_words, page_entries_words, page_entry_words, point_words, points_words,
    rect_words, snapshot_words, u32s_words,
};
use crate::geom::{Point, Rect};
use crate::ir::{ChildRef, DocumentSnapshot, Fragment, Ligature, PageEntry};
use crate::wire::i64_to_word;
use crate::IR_VERSION;
use vstd::prelude::*;

verus! {

/// The words of a rectangle.
fn rect_to_words(r: &Rect) -> (out: Vec<u64>)
    ensures
        out@ == rect_words(*r),
{
    let mut out: Vec<u64> = Vec::new();
    out.push(i64_to_word(r.x_min));
    out.push(i64_to_word(r.y_min));
    out.push(i64_to_word(r.x_max));
    out.push(i64_to_word(r.y_max));
    proof {
        assert(out@ =~= rect_words(*r));
    }
    out
}

/// The words of a byte list, one byte per word.
fn bytes_to_words(bs: &Vec<u8>) -> (out: Vec<u64>)
    ensures
        out@ == bytes_words(bs@),
{
    let mut out: Vec<u64> = Vec::new();
    let mut i: usize = 0;
    proof {
        assert(bs@.subrange(0, 0) =~= Seq::<u8>::empty());
    }
    while i < bs.len()
        invariant
            i <= bs@.len(),
            out@ == bytes_words(bs@.subrange(0, i as int)),
        decreases bs@.len() - i,
    {
        out.push(bs[i] as u64);
        proof {
            let pre = bs@.subrange(0, i as int);
            let now = bs@.subrange(0, i + 1);
            assert(now.drop_last() =~= pre);
            assert(now.last() == bs@[i as int]);
        }
        i = i + 1;
    }
    proof {
        assert(bs@.subrange(0, bs@.len() as int) =~= bs@);
    }
    out
}

/// The words of a 32-bit value list.
fn u32s_to_words(xs: &Vec<u32>) -> (out: Vec<u64>)
    ensures
        out@ == u32s_words(xs@),
{
    let mut out: Vec<u64> = Vec::new();
    let mut i: usize = 0;
    proof {
        assert(xs@.subrange(0, 0) =~= Seq::<u32>::empty());
    }
    while i < xs.len()
        invariant
            i <= xs@.len(),
            out@ == u32s_words(xs@.subrange(0, i as int)),
        decreases xs@.len() - i,
    {
        out.push(xs[i] as u64);
        proof {
            let pre = xs@.subrange(0, i as int);
            let now = xs@.subrange(0, i + 1);
            assert(now.drop_last() =~= pre);
            assert(now.last() == xs@[i as int]);
        }
        i = i + 1;
    }
    proof {
        assert(xs@.subrange(0, xs@.len() as int) =~= xs@);
    }
    out
}

/// The words of a child list.
fn children_to_words(cs: &Vec<ChildRef>) -> (out: Vec<u64>)
    ensures
        out@ == children_words(cs@),
{
    let mut out: Vec<u64> = Vec::new();
    let mut i: usize = 0;
    proof {
        assert(cs@.subrange(0, 0) =~= Seq::<ChildRef>::empty());
    }
    while i < cs.len()
        invariant
            i <= cs@.len(),
            out@ == children_words(cs@.subrange(0, i as int)),
        decreases cs@.len() - i,
    {
        let c = cs[i];
        out.push(c.id);
        out.push(i64_to_word(c.dx));
        out.push(i64_to_word(c.dy));
        proof {
            let pre = cs@.subrange(0, i as int);
            let now = cs@.subrange(0, i + 1);
            assert(now.drop_last() =~= pre);
            assert(now.last() == cs@[i as int]);
            assert(out@ =~= children_words(pre) + child_words(cs@[i as int]));
        }
        i = i + 1;
    }
    proof {
        assert(cs@.subrange(0, cs@.len() as int) =~= cs@);
    }
    out
}

/// The words of a point list.
fn points_to_words(ps: &Vec<Point>) -> (out: Vec<u64>)
    ensures
        out@ == points_words(ps@),
{
    let mut out: Vec<u64> = Vec::new();
    let mut i: usize = 0;
    proof {
        assert(ps@.subrange(0, 0) =~= Seq::<Point>::empty());
    }
    while i < ps.len()
        invariant
            i <= ps@.len(),
            out@ == points_words(ps@.subrange(0, i as int)),
        decreases ps@.len() - i,
    {
        let p = ps[i];
        out.push(i64_to_word(p.x));
        out.push(i64_to_word(p.y));
        proof {
            let pre = ps@.subrange(0, i as int);
            let now = ps@.subrange(0, i + 1);
            assert(now.drop_last() =~= pre);
            assert(now.last() == ps@[i as int]);
            assert(out@ =~= points_words(pre) + point_words(ps@[i as int]));
        }
        i = i + 1;
    }
    proof {
        assert(ps@.subrange(0, ps@.len() as int) =~= ps@);
    }
    out
}

/// The words of a page-entry list.
fn page_entries_to_words(ps: &Vec<PageEntry>) -> (out: Vec<u64>)
    ensures
        out@ == page_entries_words(ps@),
{
    let mut out: Vec<u64> = Vec::new();
    let mut i: usize = 0;
    proof {
        assert(ps@.subrange(0, 0) =~= Seq::<PageEntry>::empty());
    }
    while i < ps.len()
        invariant
            i <= ps@.len(),
            out@ == page_entries_words(ps@.subrange(0, i as int)),
        decreases ps@.len() - i,
    {
        let p = ps[i];
        out.push(p.id);
        let mut rw = rect_to_words(&p.frame);
        out.append(&mut rw);
        proof {
            let pre = ps@.subrange(0, i as int);
            let now = ps@.subrange(0, i + 1);
            assert(now.drop_last() =~= pre);
            assert(now.last() == ps@[i as int]);
            assert(out@ =~= page_entries_words(pre) + page_entry_words(ps@[i as int]));
        }
        i = i + 1;
    }
    proof {
        assert(ps@.subrange(0, ps@.len() as int) =~= ps@);
    }
    out
}

/// The words of a ligature list.
fn ligs_to_words(ls: &Vec<Ligature>) -> (out: Vec<u64>)
    ensures
        out@ == ligs_words(ls@.map_values(|l: Ligature| l@)),
{
    let mut out: Vec<u64> = Vec::new();
    let mut i: usize = 0;
    proof {
        assert(ls@.subrange(0, 0).map_values(|l: Ligature| l@) =~= Seq::<
            crate::ir::LigatureV,
        >::empty());
    }
    while i < ls.len()
        invariant
            i <= ls@.len(),
            out@ == ligs_words(ls@.subrange(0, i as int).map_values(|l: Ligature| l@)),
        decreases ls@.len() - i,
    {
        let l = &ls[i];
        out.push(l.glyph as u64);
        out.push(l.text.len() as u64);
        let mut tw = bytes_to_words(&l.text);
        out.append(&mut tw);
        proof {
            let pre = ls@.subrange(0, i as int).map_values(|l: Ligature| l@);
            let now = ls@.subrange(0, i + 1).map_values(|l: Ligature| l@);
            assert(now =~= pre.push(ls@[i as int]@));
            lemma_ligs_words_push(pre, ls@[i as int]@);
            assert(out@ =~= ligs_words(pre) + lig_words(ls@[i as int]@));
        }
        i = i + 1;
    }
    proof {
        assert(ls@.subrange(0, ls@.len() as int) =~= ls@);
    }
    out
}

/// Encode a fragment into its canonical word image.  The content identity of
/// the fragment is the word hash of exactly this image.
pub fn encode_fragment(f: &Fragment) -> (out: Vec<u64>)
    ensures
        out@ == frag_words(f@),
{
    let mut out: Vec<u64> = Vec::new();
    out.push(IR_VERSION);
    match f {
        Fragment::Page { width, height, children } => {
            out.push(crate::codec::TAG_PAGE);
            out.push(i64_to_word(*width));
            out.push(i64_to_word(*height));
            out.push(children.len() as u64);
            let mut cw = children_to_words(children);
            out.append(&mut cw);
        },
        Fragment::Frame { bbox, children } => {
            out.push(crate::codec::TAG_FRAME);
            let mut rw = rect_to_words(bbox);
            out.append(&mut rw);
            out.push(children.len() as u64);
            let mut cw = children_to_words(children);
            out.append(&mut cw);
        },
        Fragment::GlyphRun { bbox, font, size, glyphs } => {
            out.push(crate::codec::TAG_GLYPH_RUN);
            let mut rw = rect_to_words(bbox);
            out.append(&mut rw);
            out.push(*font);
            out.push(*size as u64);
            out.push(glyphs.len() as u64);
            let mut gw = u32s_to_words(glyphs);
            out.append(&mut gw);
        },
        Fragment::Shape { bbox, style, points } => {
            out.push(crate::codec::TAG_SHAPE);
            let mut rw = rect_to_words(bbox);
            out.append(&mut rw);
            out.push(*style);
            out.push(points.len() as u64);
            let mut pw = points_to_words(points);
            out.append(&mut pw);
        },
        Fragment::Style { fill, stroke, stroke_width } => {
            out.push(crate::codec::TAG_STYLE);
            out.push(*fill as u64);
            out.push(*stroke as u64);
            out.push(*stroke_width as u64);
        },
        Fragment::Font(fi) => {
            out.push(crate::codec::TAG_FONT);
            out.push(fi.family.len() as u64);
            let mut fw = bytes_to_words(&fi.family);
            out.append(&mut fw);
            out.push(fi.variant.style as u64);
            out.push(fi.variant.weight as u64);
            out.push(fi.variant.stretch as u64);
            out.push(fi.flags as u64);
            out.push(fi.coverage.len() as u64);
            let mut cw = u32s_to_words(&fi.coverage);
            out.append(&mut cw);
            out.push(fi.ligatures.len() as u64);
            let mut lw = ligs_to_words(&fi.ligatures);
            out.append(&mut lw);
            proof {
                assert(out@ =~= seq![IR_VERSION, crate::codec::TAG_FONT] + font_words(fi@));
            }
        },
        Fragment::TextMeta { bbox, text } => {
            out.push(crate::codec::TAG_TEXT_META);
            let mut rw = rect_to_words(bbox);
            out.append(&mut rw);
            out.push(text.len() as u64);
            let mut tw = bytes_to_words(text);
            out.append(&mut tw);
        },
    }
    proof {
        assert(out@ =~= frag_words(f@));
    }
    out
}

/// Encode a snapshot into its canonical word image.
pub fn encode_snapshot(s: &DocumentSnapshot) -> (out: Vec<u64>)
    ensures
        out@ == snapshot_words(s@),
{
    let mut out: Vec<u64> = Vec::new();
    out.push(IR_VERSION);
    out.push(s.info.title.len() as u64);
    let mut tw = bytes_to_words(&s.info.title);
    out.append(&mut tw);
    out.push(s.info.language.len() as u64);
    let mut lw = bytes_to_words(&s.info.language);
    out.append(&mut lw);
    out.push(s.pages.len() as u64);
    let mut pw = page_entries_to_words(&s.pages);
    out.append(&mut pw);
    proof {
        assert(out@ =~= snapshot_words(s@));
    }
    out
}

} // verus!
