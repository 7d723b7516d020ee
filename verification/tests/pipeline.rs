//! End-to-end behavior of the compile → pack → merge → render pipeline.

use typst_ts_incr::client::ClientStore;
use typst_ts_incr::doc::{PagedDocument, TypstDocument};
use typst_ts_incr::engine::SnapshotEngine;
use typst_ts_incr::geom::Rect;
use typst_ts_incr::ir::{ChildRef, DocumentInfo, Fragment, PageEntry};
use typst_ts_incr::stream::encode_delta;

fn info() -> DocumentInfo {
    DocumentInfo { title: b"sample".to_vec(), language: b"en".to_vec() }
}

fn rect(x_min: i64, y_min: i64, x_max: i64, y_max: i64) -> Rect {
    Rect { x_min, y_min, x_max, y_max }
}

/// One page holding a single text region: first contact sends exactly the
/// page module and the text module; the client resolves a one-page document.
/// A recompile that appends a second page sends only the new page's modules
/// plus the page-list module, never the unchanged text, and rendering a
/// window over the second page alone never touches the first page's content.
#[test]
fn single_page_then_appended_page() {
    let mut engine = SnapshotEngine::new();
    let text1 = Fragment::TextMeta { bbox: rect(0, 0, 50, 50), text: vec![65] };
    let t1 = engine.register_fragment(text1).unwrap();
    let page1 = Fragment::Page {
        width: 100,
        height: 200,
        children: vec![ChildRef { id: t1, dx: 10, dy: 20 }],
    };
    let p1 = engine.register_fragment(page1).unwrap();
    let doc1 = TypstDocument::Paged(PagedDocument::new(
        info(),
        vec![PageEntry { id: p1, frame: rect(0, 0, 100, 200) }],
    ));
    // First compile establishes the current snapshot.
    let first = engine.pack_delta(&doc1).unwrap();
    assert_eq!(first.modules.len(), 2);
    assert!(first.snapshot.is_some());

    // First contact: the full reconstruction has exactly two modules.
    let full = engine.pack_current();
    assert_eq!(full.modules.len(), 2);
    assert!(full.snapshot.is_some());

    let bytes = encode_delta(&full).unwrap();
    let mut client = ClientStore::new();
    client.merge_delta(&bytes).unwrap();
    assert_eq!(client.fragment_count(), 2);
    let pages = &client.snapshot.as_ref().unwrap().pages;
    assert_eq!(pages.len(), 1);
    assert!(client.get(pages[0].id).is_some());

    // Recompile: the text is byte-for-byte unchanged, a second page appears.
    let text2 = Fragment::TextMeta { bbox: rect(0, 0, 50, 50), text: vec![66] };
    let t2 = engine.register_fragment(text2).unwrap();
    let page2 = Fragment::Page {
        width: 100,
        height: 200,
        children: vec![ChildRef { id: t2, dx: 10, dy: 20 }],
    };
    let p2 = engine.register_fragment(page2).unwrap();
    let doc2 = TypstDocument::Paged(PagedDocument::new(
        info(),
        vec![
            PageEntry { id: p1, frame: rect(0, 0, 100, 200) },
            PageEntry { id: p2, frame: rect(0, 300, 100, 500) },
        ],
    ));
    let delta = engine.pack_delta(&doc2).unwrap();
    // Only the new page and its text travel, plus the page-list module.
    assert_eq!(delta.modules.len(), 2);
    assert!(delta.snapshot.is_some());
    assert!(delta.modules.iter().all(|m| m.id != t1 && m.id != p1));

    let bytes2 = encode_delta(&delta).unwrap();
    client.merge_delta(&bytes2).unwrap();
    assert_eq!(client.fragment_count(), 4);

    // A window over page two alone renders nothing of page one.
    let markup = client.render_in_window(&rect(0, 300, 100, 500));
    assert!(markup.contains(">66</meta>"));
    assert!(!markup.contains(">65</meta>"));
}

/// Merging the same delta twice leaves the client exactly as one merge does.
#[test]
fn merge_is_idempotent() {
    let mut engine = SnapshotEngine::new();
    let t = engine
        .register_fragment(Fragment::TextMeta { bbox: rect(0, 0, 9, 9), text: vec![1, 2, 3] })
        .unwrap();
    let p = engine
        .register_fragment(Fragment::Page {
            width: 10,
            height: 10,
            children: vec![ChildRef { id: t, dx: 0, dy: 0 }],
        })
        .unwrap();
    let doc = TypstDocument::Paged(PagedDocument::new(
        info(),
        vec![PageEntry { id: p, frame: rect(0, 0, 10, 10) }],
    ));
    let ds = engine.pack_delta(&doc).unwrap();
    let bytes = encode_delta(&ds).unwrap();

    let mut once = ClientStore::new();
    once.merge_delta(&bytes).unwrap();
    let mut twice = ClientStore::new();
    twice.merge_delta(&bytes).unwrap();
    twice.merge_delta(&bytes).unwrap();

    assert_eq!(once.fragment_count(), twice.fragment_count());
    let w = rect(0, 0, 10, 10);
    assert_eq!(once.render_in_window(&w), twice.render_in_window(&w));
}

/// Two engines in the same state pack byte-identical streams.
#[test]
fn packing_is_deterministic() {
    let build = || {
        let mut engine = SnapshotEngine::new();
        let t = engine
            .register_fragment(Fragment::TextMeta { bbox: rect(0, 0, 9, 9), text: vec![7] })
            .unwrap();
        let p = engine
            .register_fragment(Fragment::Page {
                width: 10,
                height: 10,
                children: vec![ChildRef { id: t, dx: 1, dy: 1 }],
            })
            .unwrap();
        let doc = TypstDocument::Paged(PagedDocument::new(
            info(),
            vec![PageEntry { id: p, frame: rect(0, 0, 10, 10) }],
        ));
        let ds = engine.pack_delta(&doc).unwrap();
        encode_delta(&ds).unwrap()
    };
    assert_eq!(build(), build());
}

/// Replaying every delta of a session in order and a single full resync of
/// the final state show the same document.
#[test]
fn replay_equals_resync() {
    let mut engine = SnapshotEngine::new();
    let t1 = engine
        .register_fragment(Fragment::TextMeta { bbox: rect(0, 0, 9, 9), text: vec![10] })
        .unwrap();
    let p1 = engine
        .register_fragment(Fragment::Page {
            width: 10,
            height: 10,
            children: vec![ChildRef { id: t1, dx: 0, dy: 0 }],
        })
        .unwrap();
    let doc1 = TypstDocument::Paged(PagedDocument::new(
        info(),
        vec![PageEntry { id: p1, frame: rect(0, 0, 10, 10) }],
    ));
    let d1 = encode_delta(&engine.pack_delta(&doc1).unwrap()).unwrap();

    let t2 = engine
        .register_fragment(Fragment::TextMeta { bbox: rect(0, 0, 9, 9), text: vec![11] })
        .unwrap();
    let p2 = engine
        .register_fragment(Fragment::Page {
            width: 10,
            height: 10,
            children: vec![ChildRef { id: t2, dx: 0, dy: 0 }],
        })
        .unwrap();
    let doc2 = TypstDocument::Paged(PagedDocument::new(
        info(),
        vec![
            PageEntry { id: p1, frame: rect(0, 0, 10, 10) },
            PageEntry { id: p2, frame: rect(0, 20, 10, 30) },
        ],
    ));
    let d2 = encode_delta(&engine.pack_delta(&doc2).unwrap()).unwrap();

    let mut replayed = ClientStore::new();
    replayed.merge_delta(&d1).unwrap();
    replayed.merge_delta(&d2).unwrap();

    let resync = encode_delta(&engine.pack_current()).unwrap();
    let mut fresh = ClientStore::new();
    fresh.merge_delta(&resync).unwrap();

    let w = rect(0, 0, 100, 100);
    assert_eq!(replayed.render_in_window(&w), fresh.render_in_window(&w));
    assert_eq!(
        replayed.snapshot.as_ref().unwrap().pages.len(),
        fresh.snapshot.as_ref().unwrap().pages.len(),
    );
}

/// An unchanged snapshot packs as the empty delta set, and merging the empty
/// delta set changes nothing.
#[test]
fn unchanged_snapshot_packs_empty() {
    let mut engine = SnapshotEngine::new();
    let p = engine
        .register_fragment(Fragment::Page { width: 10, height: 10, children: vec![] })
        .unwrap();
    let doc = TypstDocument::Paged(PagedDocument::new(
        info(),
        vec![PageEntry { id: p, frame: rect(0, 0, 10, 10) }],
    ));
    let first = engine.pack_delta(&doc).unwrap();
    assert_eq!(first.modules.len(), 1);
    let again = engine.pack_delta(&doc).unwrap();
    assert_eq!(again.modules.len(), 0);
    assert!(again.snapshot.is_none());

    let mut client = ClientStore::new();
    client.merge_delta(&encode_delta(&first).unwrap()).unwrap();
    let count = client.fragment_count();
    client.merge_delta(&encode_delta(&again).unwrap()).unwrap();
    assert_eq!(client.fragment_count(), count);
}
