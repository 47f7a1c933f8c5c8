//! QR frames, drawn and scanned.

use framevault::constants::{ENCODING_VERSION, FRAME_HEIGHT, FRAME_WIDTH};
use framevault::frame::{decode_frame, read_blocks, BLACK_Y, WHITE_Y};
use framevault::metadata::{build_qr_metadata, Meta, QrMeta};
use framevault::qr::{
    answer_luma, answer_rgb, choose_qr_meta, decode_qr_metadata, make_qr_frame, make_qr_luma,
    readable_texts, symbol_luma, symbol_rgb, QrFrameError,
};
use serde_json::Value;

/// The JSON of QR metadata, with short keys.
fn qr_json(m: &QrMeta) -> String {
    format!(
        "{{\"v\":{},\"f\":\"{}\",\"s\":{},\"h\":\"{}\",\"e\":{},\"n\":{},\"i\":{},\"m\":{}}}",
        m.version.unwrap(),
        m.filename.as_deref().unwrap(),
        m.size.unwrap(),
        m.sha256.as_deref().unwrap(),
        m.ecc_bytes.unwrap(),
        m.frames.unwrap(),
        m.index_bits.unwrap(),
        m.metadata_frames.unwrap()
    )
}

/// What the text of a QR code spells.
fn read_qr(text: &str) -> Option<QrMeta> {
    let v: Value = serde_json::from_str(text).ok()?;
    Some(QrMeta {
        version: v["v"].as_u64().map(|n| n as u32),
        filename: v["f"].as_str().map(|s| s.to_string()),
        size: v["s"].as_u64(),
        sha256: v["h"].as_str().map(|s| s.to_string()),
        ecc_bytes: v["e"].as_u64(),
        frames: v["n"].as_u64(),
        index_bits: v["i"].as_u64().map(|n| n as u32),
        metadata_frames: v["m"].as_u64(),
    })
}

#[test]
fn qr_frame_round_trip() {
    let sha = "a".repeat(64);
    let meta = Meta {
        v: ENCODING_VERSION,
        filename: "round_trip.bin".into(),
        size: 123_456,
        sha256: sha.clone(),
    };
    let payload = qr_json(&build_qr_metadata(&meta, 4096, 72, 16));
    let frame = make_qr_frame(payload.as_bytes()).expect("render qr");
    assert_eq!(frame.len(), FRAME_WIDTH * FRAME_HEIGHT * 3);

    let texts = decode_qr_metadata(&frame);
    assert_eq!(texts, vec![payload]);
    let decoded =
        choose_qr_meta(texts.iter().map(|t| read_qr(t)).collect()).expect("decode qr");
    assert_eq!(decoded.version, Some(ENCODING_VERSION));
    assert_eq!(decoded.filename.as_deref(), Some("round_trip.bin"));
    assert_eq!(decoded.size, Some(123_456));
    assert_eq!(decoded.sha256.as_deref(), Some(sha.as_str()));
    assert_eq!(decoded.ecc_bytes, Some(4096));
    assert_eq!(decoded.frames, Some(72));
    assert_eq!(decoded.index_bits, Some(16));
}

#[test]
fn three_finder_patterns_without_a_symbol_yield_nothing() {
    // Three finder patterns in the corners of a square, and nothing between them:
    // there is no timing pattern to measure.
    let px = 20;
    let side = 25;
    let mut frame = vec![255u8; FRAME_WIDTH * FRAME_HEIGHT * 3];
    for (row, col) in [(0usize, 0usize), (0, side - 7), (side - 7, 0)] {
        for r in 0..7 {
            for c in 0..7 {
                let ring = r.min(c).min(6 - r).min(6 - c);
                if ring == 1 {
                    continue;
                }
                for y in 0..px {
                    for x in 0..px {
                        let at = (200 + (row + r) * px + y) * FRAME_WIDTH
                            + 500
                            + (col + c) * px
                            + x;
                        for ch in 0..3 {
                            frame[3 * at + ch] = 0;
                        }
                    }
                }
            }
        }
    }
    assert!(decode_qr_metadata(&frame).is_empty());
}

#[test]
fn luma_and_rgb_show_the_same_symbol() {
    let rgb = make_qr_frame(b"the same symbol").unwrap();
    let luma = make_qr_luma(b"the same symbol").unwrap();
    assert_eq!(luma.len(), FRAME_WIDTH * FRAME_HEIGHT);
    for (p, &y) in luma.iter().enumerate() {
        assert_eq!(y, if rgb[3 * p] == 0 { BLACK_Y } else { WHITE_Y });
        assert!(rgb[3 * p] == rgb[3 * p + 1] && rgb[3 * p] == rgb[3 * p + 2]);
    }
    assert!(luma.contains(&BLACK_Y));
}

#[test]
fn a_qr_frame_is_no_data_frame() {
    let frame = make_qr_frame(b"metadata").unwrap();
    assert!(decode_frame(&read_blocks(&frame), 16, 24).is_none());
}

#[test]
fn long_metadata_is_refused() {
    // More than any symbol holds.
    assert_eq!(make_qr_luma(&vec![b'x'; 4000]), Err(QrFrameError::Encode));
    assert_eq!(make_qr_frame(&vec![b'x'; 4000]), Err(QrFrameError::Encode));
    // A symbol, but with modules that are too small.
    let refused = Err(QrFrameError::ModulesTooSmall { module_px: 5 });
    assert_eq!(make_qr_luma(&vec![b'x'; 1600]), refused);
    assert_eq!(make_qr_frame(&vec![b'x'; 1600]), refused);
}

#[test]
fn modules_are_centred() {
    // One row of two modules would be no symbol; a square of two by two is drawn.
    let dark = vec![true, false, false, true];
    let luma = symbol_luma(2, &dark).unwrap();
    let px = 95; // 952 / (2 + 8)
    let (left, top) = ((1920 - 10 * px) / 2, (1080 - 10 * px) / 2);
    let at = |r: usize, c: usize| luma[(top + (4 + r) * px) * 1920 + left + (4 + c) * px];
    assert_eq!(at(0, 0), BLACK_Y);
    assert_eq!(at(0, 1), WHITE_Y);
    assert_eq!(at(1, 0), WHITE_Y);
    assert_eq!(at(1, 1), BLACK_Y);
    assert_eq!(luma.iter().filter(|&&y| y == BLACK_Y).count(), 2 * px * px);
    let rgb = symbol_rgb(2, &dark).unwrap();
    assert_eq!(rgb.iter().filter(|&&v| v == 0).count(), 6 * px * px);
}

#[test]
fn module_size_limit() {
    // 952 / (150 + 8) is 6, 952 / (151 + 8) is 5.
    assert!(symbol_luma(150, &vec![false; 150 * 150]).is_ok());
    assert_eq!(
        symbol_luma(151, &vec![false; 151 * 151]),
        Err(QrFrameError::ModulesTooSmall { module_px: 5 })
    );
}

#[test]
fn nothing_is_read_from_a_white_frame() {
    assert!(decode_qr_metadata(&vec![255u8; FRAME_WIDTH * FRAME_HEIGHT * 3]).is_empty());
}

#[test]
fn unreadable_symbols_are_left_out() {
    let found = vec![None, Some("a".to_string()), None, Some("b".to_string())];
    assert_eq!(readable_texts(found), vec!["a".to_string(), "b".to_string()]);
    assert!(readable_texts(vec![]).is_empty());
}

#[test]
fn the_first_complete_metadata_counts() {
    let named = |name: &str| QrMeta {
        filename: Some(name.to_string()),
        size: Some(1),
        sha256: Some("h".to_string()),
        ..QrMeta::default()
    };
    let read = vec![None, Some(QrMeta::default()), Some(named("x")), Some(named("y"))];
    assert_eq!(choose_qr_meta(read).unwrap().filename.as_deref(), Some("x"));
    assert!(choose_qr_meta(vec![None, Some(QrMeta::default())]).is_none());
    assert!(choose_qr_meta(vec![]).is_none());
}

#[test]
fn what_came_of_making_a_symbol() {
    let dark = vec![true, false, false, true];
    assert_eq!(answer_luma(Some(Some((2, dark.clone())))), symbol_luma(2, &dark));
    assert_eq!(answer_rgb(Some(Some((2, dark.clone())))), symbol_rgb(2, &dark));
    assert_eq!(answer_luma(Some(None)), Err(QrFrameError::Encode));
    assert_eq!(answer_rgb(Some(None)), Err(QrFrameError::Encode));
    assert_eq!(answer_luma(None), Err(QrFrameError::BrokeOff));
    assert_eq!(answer_rgb(None), Err(QrFrameError::BrokeOff));
}

#[test]
fn two_symbols_in_one_picture_are_both_read() {
    // The left half shows one symbol and the right half another.
    let (a, b) = (make_qr_frame(b"left").unwrap(), make_qr_frame(b"right").unwrap());
    let mut both = vec![255u8; FRAME_WIDTH * FRAME_HEIGHT * 3];
    let mut put = |from: &[u8], left: usize| {
        for y in 0..FRAME_HEIGHT / 2 {
            for x in 0..FRAME_WIDTH / 2 {
                for c in 0..3 {
                    both[(y * FRAME_WIDTH + left + x) * 3 + c] =
                        from[(2 * y * FRAME_WIDTH + 2 * x) * 3 + c];
                }
            }
        }
    };
    put(&a, 0);
    put(&b, FRAME_WIDTH / 2);
    let mut texts = decode_qr_metadata(&both);
    texts.sort();
    assert_eq!(texts, vec!["left".to_string(), "right".to_string()]);
}
