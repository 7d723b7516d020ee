//! Server-side behavior: registration, validation, dedup across deltas.

use typst_ts_incr::doc::{HtmlDocument, PagedDocument, TypstDocument};
use typst_ts_incr::engine::{EngineError, SnapshotEngine};
use typst_ts_incr::geom::{Rect, COORD_LIMIT};
use typst_ts_incr::ir::{ChildRef, DocumentInfo, Fragment, PageEntry};
use typst_ts_incr::store::StoreError;

fn info() -> DocumentInfo {
    DocumentInfo { title: vec![], language: vec![] }
}

fn rect(x_min: i64, y_min: i64, x_max: i64, y_max: i64) -> Rect {
    Rect { x_min, y_min, x_max, y_max }
}

#[test]
fn register_rejects_out_of_bounds_coordinates() {
    let mut engine = SnapshotEngine::new();
    let r = engine.register_fragment(Fragment::Page {
        width: -1,
        height: 10,
        children: vec![],
    });
    assert_eq!(r.unwrap_err(), StoreError::InvalidFragment);
    let r = engine.register_fragment(Fragment::Frame {
        bbox: rect(0, 0, COORD_LIMIT + 1, 1),
        children: vec![],
    });
    assert_eq!(r.unwrap_err(), StoreError::InvalidFragment);
}

#[test]
fn register_rejects_unknown_children() {
    let mut engine = SnapshotEngine::new();
    let r = engine.register_fragment(Fragment::Page {
        width: 10,
        height: 10,
        children: vec![ChildRef { id: 12345, dx: 0, dy: 0 }],
    });
    assert_eq!(r.unwrap_err(), StoreError::MissingChild);
}

#[test]
fn register_same_content_is_a_single_entry() {
    let mut engine = SnapshotEngine::new();
    let a = engine
        .register_fragment(Fragment::Style { fill: 1, stroke: 2, stroke_width: 3 })
        .unwrap();
    let before = engine.store.len();
    let b = engine
        .register_fragment(Fragment::Style { fill: 1, stroke: 2, stroke_width: 3 })
        .unwrap();
    assert_eq!(a, b);
    assert_eq!(engine.store.len(), before);
    let c = engine
        .register_fragment(Fragment::Style { fill: 1, stroke: 2, stroke_width: 4 })
        .unwrap();
    assert_ne!(a, c);
    assert_eq!(engine.store.len(), before + 1);
    assert!(engine.store.contains(a));
    assert!(engine.store.get(a).is_some());
    assert!(engine.store.get(a.wrapping_add(1)).is_none());
}

#[test]
fn pack_rejects_html_documents() {
    let mut engine = SnapshotEngine::new();
    let doc = TypstDocument::Html(HtmlDocument::new(info(), 1));
    assert_eq!(engine.pack_delta(&doc).unwrap_err(), EngineError::UnsupportedDocument);
}

#[test]
fn pack_rejects_bad_geometry_and_unknown_pages() {
    let mut engine = SnapshotEngine::new();
    let p = engine
        .register_fragment(Fragment::Page { width: 10, height: 10, children: vec![] })
        .unwrap();
    let upside_down = TypstDocument::Paged(PagedDocument::new(
        info(),
        vec![PageEntry { id: p, frame: rect(10, 0, 0, 10) }],
    ));
    assert_eq!(engine.pack_delta(&upside_down).unwrap_err(), EngineError::InvalidGeometry);
    let dangling = TypstDocument::Paged(PagedDocument::new(
        info(),
        vec![PageEntry { id: p.wrapping_add(1), frame: rect(0, 0, 10, 10) }],
    ));
    assert_eq!(engine.pack_delta(&dangling).unwrap_err(), EngineError::MissingPage);
}

/// A fragment shared by two documents travels once: the second delta carries
/// only what the horizon does not cover yet.
#[test]
fn shared_fragment_is_sent_once() {
    let mut engine = SnapshotEngine::new();
    let style = engine
        .register_fragment(Fragment::Style { fill: 7, stroke: 7, stroke_width: 1 })
        .unwrap();
    let shape = engine
        .register_fragment(Fragment::Shape { bbox: rect(0, 0, 5, 5), style, points: vec![] })
        .unwrap();
    let p1 = engine
        .register_fragment(Fragment::Page {
            width: 10,
            height: 10,
            children: vec![ChildRef { id: shape, dx: 0, dy: 0 }],
        })
        .unwrap();
    let doc1 = TypstDocument::Paged(PagedDocument::new(
        info(),
        vec![PageEntry { id: p1, frame: rect(0, 0, 10, 10) }],
    ));
    let d1 = engine.pack_delta(&doc1).unwrap();
    // Page, shape, and the style the shape references.
    assert_eq!(d1.modules.len(), 3);

    // A second document reuses the same shape (hence the same style).
    let p2 = engine
        .register_fragment(Fragment::Page {
            width: 10,
            height: 10,
            children: vec![ChildRef { id: shape, dx: 2, dy: 2 }],
        })
        .unwrap();
    let doc2 = TypstDocument::Paged(PagedDocument::new(
        info(),
        vec![
            PageEntry { id: p1, frame: rect(0, 0, 10, 10) },
            PageEntry { id: p2, frame: rect(0, 20, 10, 30) },
        ],
    ));
    let d2 = engine.pack_delta(&doc2).unwrap();
    // Only the new page travels; the shape and style are on the horizon.
    assert_eq!(d2.modules.len(), 1);
    assert_eq!(d2.modules[0].id, p2);
}

#[test]
fn document_metadata_is_queryable() {
    let doc = PagedDocument::new(
        DocumentInfo { title: b"report".to_vec(), language: b"de".to_vec() },
        vec![
            PageEntry { id: 1, frame: rect(0, 0, 10, 10) },
            PageEntry { id: 2, frame: rect(0, 20, 12, 30) },
        ],
    );
    let doc = TypstDocument::Paged(doc);
    assert_eq!(doc.info().title, b"report".to_vec());
    assert_eq!(doc.info().language, b"de".to_vec());
    let intro = doc.introspector();
    assert_eq!(intro.page_count, 2);
    assert_eq!(intro.bounds, rect(0, 0, 12, 30));

    let html = TypstDocument::Html(HtmlDocument::new(
        DocumentInfo { title: b"page".to_vec(), language: vec![] },
        9,
    ));
    assert_eq!(html.info().title, b"page".to_vec());
    assert_eq!(html.introspector().page_count, 0);
}

#[test]
fn empty_document_packs_only_the_page_list() {
    let mut engine = SnapshotEngine::new();
    let doc = TypstDocument::Paged(PagedDocument::new(info(), vec![]));
    let ds = engine.pack_delta(&doc).unwrap();
    assert_eq!(ds.modules.len(), 0);
    assert!(ds.snapshot.is_some());

    let mut client = typst_ts_incr::client::ClientStore::new();
    let bytes = typst_ts_incr::stream::encode_delta(&ds).unwrap();
    client.merge_delta(&bytes).unwrap();
    assert_eq!(client.fragment_count(), 0);
    assert_eq!(client.snapshot.as_ref().unwrap().pages.len(), 0);
    let markup = client.render_in_window(&rect(0, 0, 10, 10));
    assert_eq!(markup, "<view></view>");
}
