//! Client-side behavior: protocol rejection, reset, atomicity.

use typst_ts_incr::client::{ClientStore, ProtocolError};
use typst_ts_incr::encode::encode_fragment;
use typst_ts_incr::geom::Rect;
use typst_ts_incr::ir::Fragment;
use typst_ts_incr::stream::{encode_delta, DeltaSet, FramingError, Module, ModuleKind};
use typst_ts_incr::wire::hash_words_exec;

fn rect(x_min: i64, y_min: i64, x_max: i64, y_max: i64) -> Rect {
    Rect { x_min, y_min, x_max, y_max }
}

#[test]
fn merge_rejects_unframed_bytes() {
    let mut client = ClientStore::new();
    let garbage = vec![1u8, 2, 3];
    assert_eq!(
        client.merge_delta(&garbage).unwrap_err(),
        ProtocolError::Framing(FramingError::Misaligned),
    );
    assert_eq!(client.fragment_count(), 0);
}

#[test]
fn merge_rejects_undecodable_payloads() {
    let payload = vec![1u64, 99, 0];
    let id = hash_words_exec(&payload);
    let ds = DeltaSet {
        modules: vec![Module { id, seq: 0, kind: ModuleKind::Fragment, payload }],
        snapshot: None,
    };
    let bytes = encode_delta(&ds).unwrap();
    let mut client = ClientStore::new();
    assert_eq!(client.merge_delta(&bytes).unwrap_err(), ProtocolError::MalformedPayload);
    assert_eq!(client.fragment_count(), 0);
}

#[test]
fn merge_rejects_wrong_identities() {
    let payload = encode_fragment(&Fragment::Style { fill: 1, stroke: 2, stroke_width: 3 });
    let id = hash_words_exec(&payload).wrapping_add(1);
    let ds = DeltaSet {
        modules: vec![Module { id, seq: 0, kind: ModuleKind::Fragment, payload }],
        snapshot: None,
    };
    let bytes = encode_delta(&ds).unwrap();
    let mut client = ClientStore::new();
    assert_eq!(client.merge_delta(&bytes).unwrap_err(), ProtocolError::IdMismatch);
    assert_eq!(client.fragment_count(), 0);
}

#[test]
fn duplicate_identical_modules_merge_once() {
    let payload = encode_fragment(&Fragment::TextMeta { bbox: rect(0, 0, 1, 1), text: vec![5] });
    let id = hash_words_exec(&payload);
    let ds = DeltaSet {
        modules: vec![
            Module { id, seq: 0, kind: ModuleKind::Fragment, payload: payload.clone() },
            Module { id, seq: 0, kind: ModuleKind::Fragment, payload },
        ],
        snapshot: None,
    };
    let bytes = encode_delta(&ds).unwrap();
    let mut client = ClientStore::new();
    client.merge_delta(&bytes).unwrap();
    assert_eq!(client.fragment_count(), 1);
    assert!(client.contains(id));
}

#[test]
fn reset_clears_everything() {
    let payload = encode_fragment(&Fragment::Style { fill: 1, stroke: 1, stroke_width: 1 });
    let id = hash_words_exec(&payload);
    let ds = DeltaSet {
        modules: vec![Module { id, seq: 0, kind: ModuleKind::Fragment, payload }],
        snapshot: None,
    };
    let bytes = encode_delta(&ds).unwrap();
    let mut client = ClientStore::new();
    client.merge_delta(&bytes).unwrap();
    assert_eq!(client.fragment_count(), 1);
    client.reset();
    assert_eq!(client.fragment_count(), 0);
    assert!(client.snapshot.is_none());
    // A fresh merge after the reset works as on a new client.
    client.merge_delta(&bytes).unwrap();
    assert_eq!(client.fragment_count(), 1);
}

/// A rejected stream is never partially applied: the failing module comes
/// after a good one, and neither lands.
#[test]
fn rejection_applies_nothing() {
    let good = encode_fragment(&Fragment::Style { fill: 3, stroke: 3, stroke_width: 3 });
    let good_id = hash_words_exec(&good);
    let bad = vec![1u64, 99];
    let bad_id = hash_words_exec(&bad);
    let ds = DeltaSet {
        modules: vec![
            Module { id: good_id, seq: 0, kind: ModuleKind::Fragment, payload: good },
            Module { id: bad_id, seq: 0, kind: ModuleKind::Fragment, payload: bad },
        ],
        snapshot: None,
    };
    let bytes = encode_delta(&ds).unwrap();
    let mut client = ClientStore::new();
    assert_eq!(client.merge_delta(&bytes).unwrap_err(), ProtocolError::MalformedPayload);
    assert_eq!(client.fragment_count(), 0);
    assert!(!client.contains(good_id));
}
