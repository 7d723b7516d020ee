//! Round trips and framing rejections of the codecs.

use typst_ts_incr::decode::{decode_fragment, decode_snapshot};
use typst_ts_incr::encode::{encode_fragment, encode_snapshot};
use typst_ts_incr::geom::{Point, Rect};
use typst_ts_incr::ir::{
    ChildRef, DocumentInfo, DocumentSnapshot, FontInfo, FontVariant, Fragment, Ligature,
    PageEntry,
};
use typst_ts_incr::stream::{
    encode_delta, DeltaSet, EncodeError, FramingError, Module, ModuleKind, ModuleStream,
};
use typst_ts_incr::wire::{bytes_to_words, hash_words_exec, words_to_bytes};

fn rect(x_min: i64, y_min: i64, x_max: i64, y_max: i64) -> Rect {
    Rect { x_min, y_min, x_max, y_max }
}

fn roundtrip(f: Fragment) {
    let w1 = encode_fragment(&f);
    let back = decode_fragment(&w1).expect("canonical words must decode");
    let w2 = encode_fragment(&back);
    assert_eq!(w1, w2);
}

#[test]
fn fragment_variants_roundtrip() {
    roundtrip(Fragment::Page {
        width: 100,
        height: 200,
        children: vec![ChildRef { id: 7, dx: -3, dy: 4 }],
    });
    roundtrip(Fragment::Frame {
        bbox: rect(-5, -5, 5, 5),
        children: vec![ChildRef { id: 1, dx: 0, dy: 0 }, ChildRef { id: 2, dx: 9, dy: -9 }],
    });
    roundtrip(Fragment::GlyphRun {
        bbox: rect(0, 0, 10, 12),
        font: 42,
        size: 12,
        glyphs: vec![5, 9, 1000],
    });
    roundtrip(Fragment::Shape {
        bbox: rect(0, 0, 4, 4),
        style: 8,
        points: vec![Point { x: 0, y: 0 }, Point { x: 4, y: -4 }],
    });
    roundtrip(Fragment::Style { fill: 0xff00ff00, stroke: 0x0000ff00, stroke_width: 2 });
    roundtrip(Fragment::Font(FontInfo {
        family: b"Libertine".to_vec(),
        variant: FontVariant { style: 0, weight: 400, stretch: 1000 },
        flags: 3,
        coverage: vec![0, 128, 64],
        ligatures: vec![Ligature { glyph: 12, text: b"fi".to_vec() }],
    }));
    roundtrip(Fragment::TextMeta { bbox: rect(1, 1, 2, 2), text: b"hello".to_vec() });
}

#[test]
fn fragment_decode_rejects_malformed() {
    assert!(decode_fragment(&vec![]).is_none());
    // Unknown tag.
    assert!(decode_fragment(&vec![1, 99]).is_none());
    // Wrong version word.
    assert!(decode_fragment(&vec![2, 5, 0, 0, 0]).is_none());
    // Style payload with a value beyond 32 bits.
    assert!(decode_fragment(&vec![1, 5, u64::MAX, 0, 0]).is_none());
    // Page with an out-of-bounds width.
    let mut good = encode_fragment(&Fragment::Page { width: 1, height: 1, children: vec![] });
    good[2] = u64::MAX;
    assert!(decode_fragment(&good).is_none());
    // Trailing junk is rejected: payloads must be consumed exactly.
    let mut padded = encode_fragment(&Fragment::Style { fill: 1, stroke: 2, stroke_width: 3 });
    padded.push(0);
    assert!(decode_fragment(&padded).is_none());
}

#[test]
fn snapshot_roundtrip() {
    let snap = DocumentSnapshot {
        info: DocumentInfo { title: b"t".to_vec(), language: b"en".to_vec() },
        pages: vec![
            PageEntry { id: 11, frame: rect(0, 0, 10, 10) },
            PageEntry { id: 12, frame: rect(0, 20, 10, 30) },
        ],
    };
    let w1 = encode_snapshot(&snap);
    let back = decode_snapshot(&w1).expect("canonical words must decode");
    let w2 = encode_snapshot(&back);
    assert_eq!(w1, w2);
    assert_eq!(back.pages.len(), 2);
    assert_eq!(back.info.title, b"t".to_vec());
}

#[test]
fn words_and_bytes_roundtrip() {
    let ws = vec![0u64, 1, u64::MAX, 0x0123456789abcdef];
    let bs = words_to_bytes(&ws);
    assert_eq!(bs.len(), 32);
    let back = bytes_to_words(&bs).unwrap();
    assert_eq!(ws, back);
    // Misaligned byte buffers carry no words.
    assert!(bytes_to_words(&bs[..7]).is_none());
}

#[test]
fn hash_is_content_determined() {
    let a = hash_words_exec(&vec![1, 2, 3]);
    let b = hash_words_exec(&vec![1, 2, 3]);
    let c = hash_words_exec(&vec![1, 2, 4]);
    assert_eq!(a, b);
    assert_ne!(a, c);
    // The exact chain of xor-multiply mixing steps over the basis.
    assert_eq!(a, 0xd0aa6218672cf5ab);
}

fn sample_delta() -> DeltaSet {
    let payload = encode_fragment(&Fragment::Style { fill: 1, stroke: 2, stroke_width: 3 });
    let id = hash_words_exec(&payload);
    let payload2 = encode_fragment(&Fragment::TextMeta { bbox: rect(0, 0, 1, 1), text: vec![9] });
    let id2 = hash_words_exec(&payload2);
    DeltaSet {
        modules: vec![
            Module { id, seq: 0, kind: ModuleKind::Fragment, payload },
            Module { id: id2, seq: 0, kind: ModuleKind::Fragment, payload: payload2 },
        ],
        snapshot: None,
    }
}

#[test]
fn stream_roundtrip_by_identity_and_bytes() {
    let ds = sample_delta();
    let bytes = encode_delta(&ds).unwrap();
    let st = ModuleStream::decode(&bytes).unwrap();
    assert_eq!(st.module_count(), 2);
    let back = st.checkout_owned();
    assert_eq!(back.modules.len(), ds.modules.len());
    for (a, b) in ds.modules.iter().zip(back.modules.iter()) {
        assert_eq!(a.id, b.id);
        assert_eq!(a.seq, b.seq);
        assert_eq!(a.payload, b.payload);
    }
    assert!(back.snapshot.is_none());
}

#[test]
fn stream_checkout_by_identity() {
    let ds = sample_delta();
    let wanted = ds.modules[1].id;
    let bytes = encode_delta(&ds).unwrap();
    let st = ModuleStream::decode(&bytes).unwrap();
    let m = st.checkout(wanted).expect("present identity checks out");
    assert_eq!(m.id, wanted);
    assert_eq!(m.payload, ds.modules[1].payload);
    assert!(st.checkout(wanted.wrapping_add(1)).is_none());
}

#[test]
fn stream_decode_rejects_malformed() {
    let ds = sample_delta();
    let bytes = encode_delta(&ds).unwrap();

    // A buffer whose length is not a whole number of words.
    let mut misaligned = bytes.clone();
    misaligned.pop();
    assert_eq!(ModuleStream::decode(&misaligned).unwrap_err(), FramingError::Misaligned);

    // Truncation by whole words: the directory then points outside.
    let truncated = bytes[..bytes.len() - 8].to_vec();
    assert_eq!(ModuleStream::decode(&truncated).unwrap_err(), FramingError::Malformed);

    // An unknown version word.
    let other = words_to_bytes(&vec![99u64, 0]);
    assert_eq!(ModuleStream::decode(&other).unwrap_err(), FramingError::UnsupportedVersion);

    // Too short for a header at all.
    let empty: Vec<u8> = Vec::new();
    assert_eq!(ModuleStream::decode(&empty).unwrap_err(), FramingError::UnsupportedVersion);

    // A corrupted directory offset breaks the canonical layout.
    let mut words = bytes_to_words(&bytes).unwrap();
    words[5] = words[5].wrapping_add(1);
    let corrupted = words_to_bytes(&words);
    assert_eq!(ModuleStream::decode(&corrupted).unwrap_err(), FramingError::Malformed);
}

#[test]
fn encode_rejects_misplaced_kinds() {
    let payload = encode_fragment(&Fragment::Style { fill: 1, stroke: 2, stroke_width: 3 });
    let id = hash_words_exec(&payload);
    let bad = DeltaSet {
        modules: vec![Module { id, seq: 0, kind: ModuleKind::Snapshot, payload }],
        snapshot: None,
    };
    assert_eq!(encode_delta(&bad).unwrap_err(), EncodeError::KindMismatch);
}
