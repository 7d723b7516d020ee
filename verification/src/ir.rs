//! The content-addressed vector intermediate representation.
//!
//! A [`Fragment`] is an immutable node of the compiled document.  Fragments
//! never own each other: a parent references its children by [`ContentId`],
//! the deterministic hash of the child's canonical encoding, so structurally
//! identical content anywhere in a document shares one identity and one
//! stored copy.

use crate::geom::{Point, Rect, COORD_LIMIT};
use vstd::prelude::*;

verus! {

/// Stable identity of a fragment: the word hash of its canonical encoding.
pub type ContentId = u64;

/// A reference from a parent fragment to a child, placed at an offset in the
/// parent's coordinate space.
#[derive(Clone, Copy, Debug, PartialEq, Eq, Structural)]
pub struct ChildRef {
    pub id: ContentId,
    pub dx: i64,
    pub dy: i64,
}

/// Distinguishing properties of a font within its family.
#[derive(Clone, Copy, Debug, PartialEq, Eq, Structural)]
pub struct FontVariant {
    pub style: u16,
    pub weight: u16,
    pub stretch: u16,
}

/// One ligature a font provides: a glyph and the text it stands for.
#[derive(Clone, Debug)]
pub struct Ligature {
    pub glyph: u16,
    /// UTF-8 bytes of the ligated text.
    pub text: Vec<u8>,
}

/// Properties of a single font.
#[derive(Clone, Debug)]
pub struct FontInfo {
    /// UTF-8 bytes of the typographic family name.
    pub family: Vec<u8>,
    /// Properties that distinguish this font from other fonts in the same
    /// family.
    pub variant: FontVariant,
    /// Properties of the font.
    pub flags: u32,
    /// Unicode coverage of the font, as run lengths of codepoints
    /// alternately outside and inside the covered set.
    pub coverage: Vec<u32>,
    /// Ligature coverage.
    pub ligatures: Vec<Ligature>,
}

/// An immutable node of the vector representation.
#[derive(Clone, Debug)]
pub enum Fragment {
    /// One page: its size and its directly placed children.
    Page { width: i64, height: i64, children: Vec<ChildRef> },
    /// A positioned group of children.
    Frame { bbox: Rect, children: Vec<ChildRef> },
    /// A run of shaped glyphs in one font and size.
    GlyphRun { bbox: Rect, font: ContentId, size: u32, glyphs: Vec<u32> },
    /// A path of straight segments, drawn with a referenced style.
    Shape { bbox: Rect, style: ContentId, points: Vec<Point> },
    /// A paint style referenced by shapes.
    Style { fill: u32, stroke: u32, stroke_width: u32 },
    /// Font properties referenced by glyph runs.
    Font(FontInfo),
    /// Selectable text layered over a region.
    TextMeta { bbox: Rect, text: Vec<u8> },
}

/// Mathematical image of a [`Ligature`].
pub struct LigatureV {
    pub glyph: u16,
    pub text: Seq<u8>,
}

/// Mathematical image of a [`FontInfo`].
pub struct FontInfoV {
    pub family: Seq<u8>,
    pub variant: FontVariant,
    pub flags: u32,
    pub coverage: Seq<u32>,
    pub ligatures: Seq<LigatureV>,
}

/// Mathematical image of a [`Fragment`].
pub enum FragmentV {
    Page { width: i64, height: i64, children: Seq<ChildRef> },
    Frame { bbox: Rect, children: Seq<ChildRef> },
    GlyphRun { bbox: Rect, font: ContentId, size: u32, glyphs: Seq<u32> },
    Shape { bbox: Rect, style: ContentId, points: Seq<Point> },
    Style { fill: u32, stroke: u32, stroke_width: u32 },
    Font(FontInfoV),
    TextMeta { bbox: Rect, text: Seq<u8> },
}

impl View for Ligature {
    type V = LigatureV;

    open spec fn view(&self) -> LigatureV {
        LigatureV { glyph: self.glyph, text: self.text@ }
    }
}

impl View for FontInfo {
    type V = FontInfoV;

    open spec fn view(&self) -> FontInfoV {
        FontInfoV {
            family: self.family@,
            variant: self.variant,
            flags: self.flags,
            coverage: self.coverage@,
            ligatures: self.ligatures@.map_values(|l: Ligature| l@),
        }
    }
}

impl View for Fragment {
    type V = FragmentV;

    open spec fn view(&self) -> FragmentV {
        match *self {
            Fragment::Page { width, height, children } => FragmentV::Page {
                width,
                height,
                children: children@,
            },
            Fragment::Frame { bbox, children } => FragmentV::Frame { bbox, children: children@ },
            Fragment::GlyphRun { bbox, font, size, glyphs } => FragmentV::GlyphRun {
                bbox,
                font,
                size,
                glyphs: glyphs@,
            },
            Fragment::Shape { bbox, style, points } => FragmentV::Shape {
                bbox,
                style,
                points: points@,
            },
            Fragment::Style { fill, stroke, stroke_width } => FragmentV::Style {
                fill,
                stroke,
                stroke_width,
            },
            Fragment::Font(info) => FragmentV::Font(info@),
            Fragment::TextMeta { bbox, text } => FragmentV::TextMeta { bbox, text: text@ },
        }
    }
}

impl ChildRef {
    /// Offsets of a stored child reference stay within the coordinate limit.
    pub open spec fn wf(self) -> bool {
        &&& -COORD_LIMIT <= self.dx <= COORD_LIMIT
        &&& -COORD_LIMIT <= self.dy <= COORD_LIMIT
    }
}

impl Point {
    /// Points stored in a shape stay within the coordinate limit.
    pub open spec fn bounded(self) -> bool {
        &&& -COORD_LIMIT <= self.x <= COORD_LIMIT
        &&& -COORD_LIMIT <= self.y <= COORD_LIMIT
    }
}

impl FragmentV {
    /// The content identities this fragment references: placed children for
    /// pages and frames, the font of a glyph run, the style of a shape.
    pub open spec fn refs(self) -> Seq<ContentId> {
        match self {
            FragmentV::Page { children, .. } => children.map_values(|c: ChildRef| c.id),
            FragmentV::Frame { children, .. } => children.map_values(|c: ChildRef| c.id),
            FragmentV::GlyphRun { font, .. } => seq![font],
            FragmentV::Shape { style, .. } => seq![style],
            FragmentV::Style { .. } => Seq::empty(),
            FragmentV::Font(_) => Seq::empty(),
            FragmentV::TextMeta { .. } => Seq::empty(),
        }
    }

    /// The box this fragment occupies in its own coordinate space; styles and
    /// fonts occupy none.
    pub open spec fn bbox(self) -> Option<Rect> {
        match self {
            FragmentV::Page { width, height, .. } => Some(
                Rect { x_min: 0, y_min: 0, x_max: width, y_max: height },
            ),
            FragmentV::Frame { bbox, .. } => Some(bbox),
            FragmentV::GlyphRun { bbox, .. } => Some(bbox),
            FragmentV::Shape { bbox, .. } => Some(bbox),
            FragmentV::Style { .. } => None,
            FragmentV::Font(_) => None,
            FragmentV::TextMeta { bbox, .. } => Some(bbox),
        }
    }

    /// Well-formedness of a fragment: every stored coordinate is bounded and
    /// every list is short enough for its length to travel as one word.
    pub open spec fn wf(self) -> bool {
        match self {
            FragmentV::Page { width, height, children } => {
                &&& 0 <= width <= COORD_LIMIT
                &&& 0 <= height <= COORD_LIMIT
                &&& children.len() <= u64::MAX
                &&& forall|k: int| 0 <= k < children.len() ==> (#[trigger] children[k]).wf()
            },
            FragmentV::Frame { bbox, children } => {
                &&& bbox.bounded()
                &&& children.len() <= u64::MAX
                &&& forall|k: int| 0 <= k < children.len() ==> (#[trigger] children[k]).wf()
            },
            FragmentV::GlyphRun { bbox, glyphs, .. } => bbox.bounded() && glyphs.len()
                <= u64::MAX,
            FragmentV::Shape { bbox, points, .. } => {
                &&& bbox.bounded()
                &&& points.len() <= u64::MAX
                &&& forall|k: int| 0 <= k < points.len() ==> (#[trigger] points[k]).bounded()
            },
            FragmentV::Style { .. } => true,
            FragmentV::Font(fi) => {
                &&& fi.family.len() <= u64::MAX
                &&& fi.coverage.len() <= u64::MAX
                &&& fi.ligatures.len() <= u64::MAX
                &&& forall|k: int|
                    0 <= k < fi.ligatures.len() ==> (#[trigger] fi.ligatures[k]).text.len()
                        <= u64::MAX
            },
            FragmentV::TextMeta { bbox, text } => bbox.bounded() && text.len() <= u64::MAX,
        }
    }
}

impl Fragment {
    /// Collect the referenced content identities.
    pub fn refs(&self) -> (r: Vec<ContentId>)
        ensures
            r@ == self@.refs(),
    {
        match self {
            Fragment::Page { children, .. } => collect_child_ids(children),
            Fragment::Frame { children, .. } => collect_child_ids(children),
            Fragment::GlyphRun { font, .. } => {
                let mut r: Vec<ContentId> = Vec::new();
                r.push(*font);
                proof {
                    assert(r@ =~= self@.refs());
                }
                r
            },
            Fragment::Shape { style, .. } => {
                let mut r: Vec<ContentId> = Vec::new();
                r.push(*style);
                proof {
                    assert(r@ =~= self@.refs());
                }
                r
            },
            Fragment::Style { .. } => {
                let r: Vec<ContentId> = Vec::new();
                proof {
                    assert(r@ =~= self@.refs());
                }
                r
            },
            Fragment::Font(_) => {
                let r: Vec<ContentId> = Vec::new();
                proof {
                    assert(r@ =~= self@.refs());
                }
                r
            },
            Fragment::TextMeta { .. } => {
                let r: Vec<ContentId> = Vec::new();
                proof {
                    assert(r@ =~= self@.refs());
                }
                r
            },
        }
    }
}

/// The identities of a child list, in order.
fn collect_child_ids(children: &Vec<ChildRef>) -> (r: Vec<ContentId>)
    ensures
        r@ == children@.map_values(|c: ChildRef| c.id),
{
    let mut r: Vec<ContentId> = Vec::new();
    let mut i: usize = 0;
    while i < children.len()
        invariant
            i <= children@.len(),
            r@.len() == i,
            forall|j: int| 0 <= j < i ==> r@[j] == children@[j].id,
        decreases children@.len() - i,
    {
        r.push(children[i].id);
        i = i + 1;
    }
    proof {
        assert(r@ =~= children@.map_values(|c: ChildRef| c.id));
    }
    r
}

/// An ordered reference to one page: the page fragment's identity and the
/// absolute placement of the page in document coordinates.
#[derive(Clone, Copy, Debug, PartialEq, Eq, Structural)]
pub struct PageEntry {
    pub id: ContentId,
    pub frame: Rect,
}

/// Document metadata carried by a snapshot.
#[derive(Clone, Debug)]
pub struct DocumentInfo {
    /// UTF-8 bytes of the document title; empty when untitled.
    pub title: Vec<u8>,
    /// UTF-8 bytes of the document language tag; empty when unset.
    pub language: Vec<u8>,
}

/// Mathematical image of a [`DocumentInfo`].
pub struct DocumentInfoV {
    pub title: Seq<u8>,
    pub language: Seq<u8>,
}

impl View for DocumentInfo {
    type V = DocumentInfoV;

    open spec fn view(&self) -> DocumentInfoV {
        DocumentInfoV { title: self.title@, language: self.language@ }
    }
}

/// One compiled state of the document: its ordered page references and its
/// metadata.
#[derive(Clone, Debug)]
pub struct DocumentSnapshot {
    pub info: DocumentInfo,
    pub pages: Vec<PageEntry>,
}

/// Mathematical image of a [`DocumentSnapshot`].
pub struct DocumentSnapshotV {
    pub info: DocumentInfoV,
    pub pages: Seq<PageEntry>,
}

impl View for DocumentSnapshot {
    type V = DocumentSnapshotV;

    open spec fn view(&self) -> DocumentSnapshotV {
        DocumentSnapshotV { info: self.info@, pages: self.pages@ }
    }
}

impl DocumentSnapshotV {
    /// A snapshot is well-formed when every page placement is bounded and the
    /// lists are short enough for their lengths to travel as one word.
    pub open spec fn wf(self) -> bool {
        &&& self.pages.len() <= u64::MAX
        &&& self.info.title.len() <= u64::MAX
        &&& self.info.language.len() <= u64::MAX
        &&& forall|k: int| 0 <= k < self.pages.len() ==> (#[trigger] self.pages[k]).frame.bounded()
    }

    /// The page identities in order.
    pub open spec fn page_ids(self) -> Seq<ContentId> {
        self.pages.map_values(|p: PageEntry| p.id)
    }
}

} // verus!
