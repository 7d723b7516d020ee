//! The compiled document as the engine consumes it.
//!
//! A compiled document arrives as plain values: document metadata, an ordered
//! page list whose entries name registered fragments, and a precomputed
//! introspector summarizing what a consumer may query without walking the
//! fragment graph.

use crate::geom::Rect;
use crate::ir::{ContentId, DocumentInfo, DocumentInfoV, PageEntry};
use vstd::prelude::*;

verus! {

/// A queryable summary of a compiled document: how many pages it has and the
/// box enclosing all page placements.
#[derive(Clone, Copy, Debug, PartialEq, Eq, Structural)]
pub struct Introspector {
    pub page_count: usize,
    pub bounds: Rect,
}

/// The box enclosing the placements of all pages; a degenerate empty box for
/// a document without pages.
pub open spec fn pages_bounds(pages: Seq<PageEntry>) -> Rect
    decreases pages.len(),
{
    if pages.len() == 0 {
        Rect { x_min: 0, y_min: 0, x_max: 0, y_max: 0 }
    } else {
        join_rect(pages_bounds(pages.drop_last()), pages.last().frame)
    }
}

/// The smallest rectangle covering both arguments.
pub open spec fn join_rect(a: Rect, b: Rect) -> Rect {
    Rect {
        x_min: if a.x_min <= b.x_min { a.x_min } else { b.x_min },
        y_min: if a.y_min <= b.y_min { a.y_min } else { b.y_min },
        x_max: if a.x_max >= b.x_max { a.x_max } else { b.x_max },
        y_max: if a.y_max >= b.y_max { a.y_max } else { b.y_max },
    }
}

/// A document compiled for the paged target: what the incremental pipeline
/// serves.
#[derive(Clone, Debug)]
pub struct PagedDocument {
    pub info: DocumentInfo,
    pub pages: Vec<PageEntry>,
    pub introspector: Introspector,
}

/// Mathematical image of a [`PagedDocument`].
pub struct PagedDocumentV {
    pub info: DocumentInfoV,
    pub pages: Seq<PageEntry>,
    pub introspector: Introspector,
}

impl View for PagedDocument {
    type V = PagedDocumentV;

    open spec fn view(&self) -> PagedDocumentV {
        PagedDocumentV { info: self.info@, pages: self.pages@, introspector: self.introspector }
    }
}

impl PagedDocument {
    /// Assemble a paged document, computing its introspector.
    pub fn new(info: DocumentInfo, pages: Vec<PageEntry>) -> (r: PagedDocument)
        ensures
            r@.info == info@,
            r@.pages == pages@,
            r@.introspector.page_count == pages@.len(),
            r@.introspector.bounds == pages_bounds(pages@),
    {
        let mut bounds = Rect { x_min: 0, y_min: 0, x_max: 0, y_max: 0 };
        let mut k: usize = 0;
        proof {
            assert(pages@.subrange(0, 0) =~= Seq::<PageEntry>::empty());
        }
        while k < pages.len()
            invariant
                k <= pages@.len(),
                bounds == pages_bounds(pages@.subrange(0, k as int)),
            decreases pages@.len() - k,
        {
            let f = pages[k].frame;
            bounds = Rect {
                x_min: if bounds.x_min <= f.x_min {
                    bounds.x_min
                } else {
                    f.x_min
                },
                y_min: if bounds.y_min <= f.y_min {
                    bounds.y_min
                } else {
                    f.y_min
                },
                x_max: if bounds.x_max >= f.x_max {
                    bounds.x_max
                } else {
                    f.x_max
                },
                y_max: if bounds.y_max >= f.y_max {
                    bounds.y_max
                } else {
                    f.y_max
                },
            };
            proof {
                let now = pages@.subrange(0, k + 1);
                assert(now.drop_last() =~= pages@.subrange(0, k as int));
                assert(now.last() == pages@[k as int]);
            }
            k = k + 1;
        }
        proof {
            assert(pages@.subrange(0, pages@.len() as int) =~= pages@);
        }
        let page_count = pages.len();
        PagedDocument { info, pages, introspector: Introspector { page_count, bounds } }
    }
}

/// A document compiled for the HTML target: carried for metadata queries, but
/// outside the scope of the paged incremental pipeline.
#[derive(Clone, Debug)]
pub struct HtmlDocument {
    pub info: DocumentInfo,
    /// The root fragment of the HTML body.
    pub body: ContentId,
    pub introspector: Introspector,
}

/// Mathematical image of an [`HtmlDocument`].
pub struct HtmlDocumentV {
    pub info: DocumentInfoV,
    pub body: ContentId,
    pub introspector: Introspector,
}

impl View for HtmlDocument {
    type V = HtmlDocumentV;

    open spec fn view(&self) -> HtmlDocumentV {
        HtmlDocumentV { info: self.info@, body: self.body, introspector: self.introspector }
    }
}

impl HtmlDocument {
    /// Assemble an HTML document; it has no pages to introspect.
    pub fn new(info: DocumentInfo, body: ContentId) -> (r: HtmlDocument)
        ensures
            r@.info == info@,
            r@.body == body,
            r@.introspector.page_count == 0,
    {
        HtmlDocument {
            info,
            body,
            introspector: Introspector {
                page_count: 0,
                bounds: Rect { x_min: 0, y_min: 0, x_max: 0, y_max: 0 },
            },
        }
    }
}

/// The enum of all well-known compiled documents.
#[derive(Clone, Debug)]
pub enum TypstDocument {
    /// The document compiled with the paged target.
    Paged(PagedDocument),
    /// The document compiled with the HTML target.
    Html(HtmlDocument),
}

/// Mathematical image of a [`TypstDocument`].
pub enum TypstDocumentV {
    Paged(PagedDocumentV),
    Html(HtmlDocumentV),
}

impl View for TypstDocument {
    type V = TypstDocumentV;

    open spec fn view(&self) -> TypstDocumentV {
        match *self {
            TypstDocument::Paged(ref d) => TypstDocumentV::Paged(d@),
            TypstDocument::Html(ref d) => TypstDocumentV::Html(d@),
        }
    }
}

impl TypstDocumentV {
    /// The metadata of either target.
    pub open spec fn spec_info(self) -> DocumentInfoV {
        match self {
            TypstDocumentV::Paged(d) => d.info,
            TypstDocumentV::Html(d) => d.info,
        }
    }

    /// The introspector of either target.
    pub open spec fn spec_introspector(self) -> Introspector {
        match self {
            TypstDocumentV::Paged(d) => d.introspector,
            TypstDocumentV::Html(d) => d.introspector,
        }
    }
}

impl TypstDocument {
    /// The document metadata, whatever the compile target was.
    pub fn info(&self) -> (r: &DocumentInfo)
        ensures
            r@ == self@.spec_info(),
    {
        match self {
            TypstDocument::Paged(doc) => &doc.info,
            TypstDocument::Html(doc) => &doc.info,
        }
    }

    /// The introspector, whatever the compile target was.
    pub fn introspector(&self) -> (r: &Introspector)
        ensures
            *r == self@.spec_introspector(),
    {
        match self {
            TypstDocument::Paged(doc) => &doc.introspector,
            TypstDocument::Html(doc) => &doc.introspector,
        }
    }
}

} // verus!
