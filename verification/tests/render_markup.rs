//! Exact markup output and window pruning.

use typst_ts_incr::client::ClientStore;
use typst_ts_incr::doc::{PagedDocument, TypstDocument};
use typst_ts_incr::engine::SnapshotEngine;
use typst_ts_incr::geom::Rect;
use typst_ts_incr::ir::{ChildRef, DocumentInfo, Fragment, PageEntry};
use typst_ts_incr::render::{dec_string, int_string};
use typst_ts_incr::stream::encode_delta;

fn rect(x_min: i64, y_min: i64, x_max: i64, y_max: i64) -> Rect {
    Rect { x_min, y_min, x_max, y_max }
}

fn info() -> DocumentInfo {
    DocumentInfo { title: vec![], language: vec![] }
}

#[test]
fn decimal_text_is_exact() {
    assert_eq!(dec_string(0), "0");
    assert_eq!(dec_string(7), "7");
    assert_eq!(dec_string(12345), "12345");
    assert_eq!(dec_string(u64::MAX), "18446744073709551615");
    assert_eq!(int_string(0), "0");
    assert_eq!(int_string(-7), "-7");
    assert_eq!(int_string(104), "104");
}

/// One page, one text region: the whole markup, byte for byte.
#[test]
fn markup_is_exact() {
    let mut engine = SnapshotEngine::new();
    let t = engine
        .register_fragment(Fragment::TextMeta { bbox: rect(0, 0, 50, 50), text: vec![104, 105] })
        .unwrap();
    let p = engine
        .register_fragment(Fragment::Page {
            width: 100,
            height: 200,
            children: vec![ChildRef { id: t, dx: 10, dy: 20 }],
        })
        .unwrap();
    let doc = TypstDocument::Paged(PagedDocument::new(
        info(),
        vec![PageEntry { id: p, frame: rect(0, 0, 100, 200) }],
    ));
    let ds = engine.pack_delta(&doc).unwrap();
    let mut client = ClientStore::new();
    client.merge_delta(&encode_delta(&ds).unwrap()).unwrap();

    let markup = client.render_in_window(&rect(0, 0, 100, 200));
    assert_eq!(
        markup,
        "<view><page x='0' y='0'><group x='0' y='0'>\
         <meta x='10' y='20'>104 105</meta></group></page></view>",
    );
    // Rendering twice gives the same output; the second pass serves the leaf
    // from the cache.
    let again = client.render_in_window(&rect(0, 0, 100, 200));
    assert_eq!(markup, again);

    // A window that misses the page renders an empty view.
    let empty = client.render_in_window(&rect(1000, 1000, 2000, 2000));
    assert_eq!(empty, "<view></view>");

    // A window over the page but past the text keeps the group and prunes
    // the text region.
    let partial = client.render_in_window(&rect(90, 180, 100, 200));
    assert_eq!(
        partial,
        "<view><page x='0' y='0'><group x='0' y='0'></group></page></view>",
    );
}

/// Shapes carry their style by identity; glyph runs their font.
#[test]
fn shapes_and_glyphs_reference_by_identity() {
    let mut engine = SnapshotEngine::new();
    let style = engine
        .register_fragment(Fragment::Style { fill: 1, stroke: 2, stroke_width: 3 })
        .unwrap();
    let shape = engine
        .register_fragment(Fragment::Shape {
            bbox: rect(0, 0, 4, 4),
            style,
            points: vec![
                typst_ts_incr::geom::Point { x: 0, y: 0 },
                typst_ts_incr::geom::Point { x: 4, y: -1 },
            ],
        })
        .unwrap();
    let p = engine
        .register_fragment(Fragment::Page {
            width: 10,
            height: 10,
            children: vec![ChildRef { id: shape, dx: 1, dy: 2 }],
        })
        .unwrap();
    let doc = TypstDocument::Paged(PagedDocument::new(
        info(),
        vec![PageEntry { id: p, frame: rect(0, 0, 10, 10) }],
    ));
    let ds = engine.pack_delta(&doc).unwrap();
    let mut client = ClientStore::new();
    client.merge_delta(&encode_delta(&ds).unwrap()).unwrap();

    let markup = client.render_in_window(&rect(0, 0, 10, 10));
    let expected = format!(
        "<view><page x='0' y='0'><group x='0' y='0'>\
         <path x='1' y='2' style='{style}'>0,0 4,-1</path></group></page></view>",
    );
    assert_eq!(markup, expected);
}

/// An unresolved child degrades to a placeholder for that region only; the
/// rest of the page still renders.
#[test]
fn missing_child_renders_a_placeholder() {
    let mut engine = SnapshotEngine::new();
    let t = engine
        .register_fragment(Fragment::TextMeta { bbox: rect(0, 0, 5, 5), text: vec![65] })
        .unwrap();
    let p = engine
        .register_fragment(Fragment::Page {
            width: 10,
            height: 10,
            children: vec![ChildRef { id: t, dx: 0, dy: 0 }],
        })
        .unwrap();
    let doc = TypstDocument::Paged(PagedDocument::new(
        info(),
        vec![PageEntry { id: p, frame: rect(0, 0, 10, 10) }],
    ));
    let ds = engine.pack_delta(&doc).unwrap();
    // Drop the text module from the stream, keeping the page and the list.
    let mut thinned = ds;
    thinned.modules.retain(|m| m.id != t);
    assert_eq!(thinned.modules.len(), 1);
    let mut client = ClientStore::new();
    client.merge_delta(&encode_delta(&thinned).unwrap()).unwrap();

    let markup = client.render_in_window(&rect(0, 0, 10, 10));
    let expected = format!(
        "<view><page x='0' y='0'><group x='0' y='0'>\
         <missing id='{t}'/></group></page></view>",
    );
    assert_eq!(markup, expected);
}
