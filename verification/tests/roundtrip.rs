//! Encode -> frames -> decode -> verify round trips, frame by frame.

use framevault::budget::blocks_for_budget;
use framevault::constants::{FRAME_WIDTH, FRAME_HEIGHT};
use framevault::decode::{
    extract_file, DecodeError, DecodeReport, DecodeSession, Ending, FrameCounts, Strategy,
};
use framevault::encode::{plan, report, EncodeReport, FrameSource, NextFrame};
use framevault::frame::make_frame;
use framevault::metadata::{
    assemble_payload, build_meta, build_qr_metadata, payload_metadata, serialize_meta_header,
    FileHasher, Meta, PayloadError, QrMeta,
};
use framevault::qr::{choose_qr_meta, decode_qr_metadata, make_qr_luma};
use framevault::reassembly::{
    clear_metadata, collected_payload, complete_payload, reassembled_payload, repaired_metadata,
};
use framevault::rs::ecc_encode;
use serde_json::Value;

/// Deterministic pseudo-random bytes (xorshift64).
fn pseudo_random(n: usize, seed: u64) -> Vec<u8> {
    let mut s = seed | 1;
    (0..n)
        .map(|_| {
            s ^= s << 13;
            s ^= s >> 7;
            s ^= s << 17;
            (s & 0xff) as u8
        })
        .collect()
}

fn meta_json(meta: &Meta) -> Vec<u8> {
    format!(
        "{{\"v\":{},\"filename\":\"{}\",\"size\":{},\"sha256\":\"{}\"}}",
        meta.v, meta.filename, meta.size, meta.sha256
    )
    .into_bytes()
}

fn read_meta(json: &[u8]) -> Option<Meta> {
    let v: Value = serde_json::from_slice(json).ok()?;
    Some(Meta {
        v: v.get("v")?.as_u64()? as u32,
        filename: v.get("filename")?.as_str()?.to_string(),
        size: v.get("size")?.as_u64()?,
        sha256: v.get("sha256")?.as_str()?.to_string(),
    })
}

fn qr_json(m: &QrMeta) -> String {
    format!(
        "{{\"v\":{},\"f\":\"{}\",\"s\":{},\"h\":\"{}\",\"e\":{},\"n\":{},\"i\":{},\"m\":{}}}",
        m.version.unwrap(),
        m.filename.as_deref().unwrap(),
        m.size.unwrap(),
        m.sha256.as_deref().unwrap(),
        m.ecc_bytes.unwrap(),
        m.frames.unwrap(),
        m.index_bits.unwrap(),
        m.metadata_frames.unwrap()
    )
}

fn read_qr(json: &str) -> Option<QrMeta> {
    let v: Value = serde_json::from_str(json).ok()?;
    Some(QrMeta {
        version: v["v"].as_u64().map(|n| n as u32),
        filename: v["f"].as_str().map(|s| s.to_string()),
        size: v["s"].as_u64(),
        sha256: v["h"].as_str().map(|s| s.to_string()),
        ecc_bytes: v["e"].as_u64(),
        frames: v["n"].as_u64(),
        index_bits: v["i"].as_u64().map(|n| n as u32),
        metadata_frames: v["m"].as_u64(),
    })
}

/// An rgb24 frame as a video shows a luma plane.
fn shown(luma: &[u8]) -> Vec<u8> {
    let mut rgb = Vec::with_capacity(FRAME_WIDTH * FRAME_HEIGHT * 3);
    for &y in luma {
        let v = ((y as u32 - 16) * 255 / 219) as u8;
        rgb.extend([v, v, v]);
    }
    rgb
}

/// The metadata of a file.
fn meta_of(data: &[u8], filename: &str) -> Meta {
    let mut hasher = FileHasher::new();
    for piece in data.chunks(64) {
        hasher.update(piece);
    }
    build_meta(Some(filename.to_string()), data.len() as u64, hasher)
}

/// Hands every luma plane of the encoded file to `show`.
fn encode(
    data: &[u8],
    filename: &str,
    batch_blocks: usize,
    mut show: impl FnMut(usize, &[u8]),
) -> EncodeReport {
    let meta = meta_of(data, filename);
    let header = serialize_meta_header(&meta_json(&meta));
    let plan = plan(header.len(), meta.size).expect("plan");
    let qr = build_qr_metadata(&meta, plan.ecc_len, plan.num_data_frames as u64, plan.index_bits);
    let qr_luma = make_qr_luma(qr_json(&qr).as_bytes()).expect("qr");
    let mut payload = header;
    payload.extend_from_slice(data);
    let mut source = FrameSource::new(qr_luma, batch_blocks, plan.index_bits);
    let mut at = 0;
    let mut shown = 0;
    while shown < plan.total_frames {
        match source.next() {
            NextFrame::NeedInput => {
                let n = source.room().min(payload.len() - at);
                source.supply(&payload[at..at + n]);
                at += n;
            }
            NextFrame::Luma(luma) => {
                show(shown, &luma);
                shown += 1;
            }
        }
    }
    report(&meta, &plan)
}

/// Shows a frame to the session; the bytes that come out go behind `file`.
fn see(session: &mut DecodeSession, rgb: &[u8], opened: &mut Vec<String>, file: &mut Vec<u8>) {
    let qr = if session.wants_qr() {
        let texts = decode_qr_metadata(rgb);
        choose_qr_meta(texts.iter().map(|t| read_qr(t)).collect())
    } else {
        None
    };
    if let Some(m) = &qr {
        assert!(session.can_address(m));
    }
    let step = session.on_frame(rgb, qr).expect("frame");
    opened.extend(step.opened);
    file.extend(step.bytes);
}

fn round_trip(data: &[u8], filename: &str) -> (Vec<u8>, EncodeReport, DecodeReport) {
    let mut session = DecodeSession::new(blocks_for_budget(1024));
    let mut opened = Vec::new();
    let mut file = Vec::new();
    let enc = encode(data, filename, 2, |_, luma| {
        see(&mut session, &shown(luma), &mut opened, &mut file);
    });
    assert_eq!(opened, vec![filename.to_string()]);
    assert!(session.can_finish());
    assert_eq!(session.frames_seen(), enc.total_frames);
    match session.finish().expect("decode") {
        Ending::Streamed { tail, report, counts } => {
            file.extend(tail);
            assert_eq!(
                counts,
                FrameCounts {
                    total: enc.total_frames,
                    valid: enc.num_data_frames,
                    sync_fail: 30,
                    missing: 0,
                }
            );
            (file, enc, report.verdict().expect("digest"))
        }
        Ending::Collected { .. } => panic!("metadata was not found"),
    }
}

fn assert_round_trip(data: &[u8], filename: &str) {
    let (recovered, enc, dec) = round_trip(data, filename);
    assert_eq!(recovered, data, "byte-level mismatch for {filename}");
    assert!(dec.sha_ok, "SHA mismatch for {filename}");
    assert_eq!(enc.index_bits, 16, "expected 16-bit index for {filename}");
    assert_eq!(
        dec.strategy,
        Strategy::VideoOnly,
        "clean local video should decode video-only for {filename}"
    );
    assert_eq!(dec.filename, filename);
    assert_eq!(dec.size, data.len());
    assert_eq!(dec.sha256, enc.sha256);
}

// ---- size sweep (16-bit index selection) ----

#[test]
fn size_1_byte() {
    assert_round_trip(&[0xAB], "one.bin");
}

#[test]
fn size_22_bytes() {
    assert_round_trip(&(0u8..22).collect::<Vec<_>>(), "threshold.bin");
}

#[test]
fn size_100_bytes() {
    assert_round_trip(&pseudo_random(100, 1), "r100.bin");
}

#[test]
fn size_1kb() {
    assert_round_trip(&pseudo_random(1024, 2), "r1k.bin");
}

#[test]
fn size_10kb() {
    assert_round_trip(&pseudo_random(10 * 1024, 3), "r10k.bin");
}

// ---- data variety ----

#[test]
fn variety_all_zeros() {
    assert_round_trip(&vec![0u8; 2048], "zeros.bin");
}

#[test]
fn variety_all_0xff() {
    assert_round_trip(&vec![0xFFu8; 2048], "ones.bin");
}

#[test]
fn variety_text() {
    let data = "Hello FrameVault!\nThis is a test.\n".repeat(60).into_bytes();
    assert_round_trip(&data, "readme.txt");
}

#[test]
fn variety_repeating_256_cycle() {
    let cycle: Vec<u8> = (0..=255u8).collect();
    let data: Vec<u8> = cycle.repeat(12);
    assert_round_trip(&data, "pattern.bin");
}

#[test]
fn variety_mixed_binary() {
    let mut data = vec![0u8; 1024];
    data.extend(vec![0xFFu8; 512]);
    data.extend(pseudo_random(512, 7));
    assert_round_trip(&data, "mixed.bin");
}

// ---- what the session makes of less than a clean video ----

/// QR metadata of a file, as a decoder reads it.
fn qr_of(data: &[u8], name: &str) -> (QrMeta, Vec<u8>) {
    let meta = meta_of(data, name);
    let ecc = ecc_encode(&assemble_payload(&meta_json(&meta), data));
    let p = plan(meta_json(&meta).len() + 4, meta.size).unwrap();
    assert_eq!(p.ecc_len, ecc.len());
    (build_qr_metadata(&meta, p.ecc_len, p.num_data_frames as u64, p.index_bits), ecc)
}

/// Data frame `k` of a stream.
fn data_frame(ecc: &[u8], k: usize) -> Vec<u8> {
    let mut part: Vec<u8> = ecc.iter().copied().skip(k * 57).take(57).collect();
    part.resize(57, 0);
    make_frame(k as u64, &part, 16)
}

fn blank() -> Vec<u8> {
    vec![255u8; FRAME_WIDTH * FRAME_HEIGHT * 3]
}

#[test]
fn no_valid_frames() {
    let (qr, _) = qr_of(b"abc", "n.bin");
    let session = DecodeSession::new(1);
    assert_eq!(session.finish().err(), Some(DecodeError::NoValidFrames));
    let mut session = DecodeSession::new(1);
    session.on_frame(&blank(), Some(qr)).unwrap();
    assert_eq!(session.finish().err(), Some(DecodeError::NoValidFrames));
}

#[test]
fn a_dropped_frame_is_recovered_where_blocks_allow() {
    let data = pseudo_random(1000, 5);
    let (qr, ecc) = qr_of(&data, "d.bin");
    let frames = ecc.len().div_ceil(57);
    // The bytes of this frame lie across two blocks, no more than 32 in either.
    let lost = (0..frames)
        .find(|k| (26..=32).contains(&(255 - k * 57 % 255)))
        .unwrap();
    let mut session = DecodeSession::new(2);
    let mut file = Vec::new();
    let mut opened = Vec::new();
    let step = session.on_frame(&blank(), Some(qr)).unwrap();
    opened.extend(step.opened);
    assert!(!session.wants_qr());
    for k in (0..frames).filter(|&k| k != lost) {
        see(&mut session, &data_frame(&ecc, k), &mut opened, &mut file);
    }
    match session.finish().unwrap() {
        Ending::Streamed { tail, report, counts } => {
            file.extend(tail);
            assert_eq!(file, data);
            assert!(report.sha_ok);
            assert_eq!(counts.missing, 1);
            assert_eq!(counts.sync_fail, 1);
        }
        Ending::Collected { .. } => panic!("metadata was given"),
    }
}

#[test]
fn too_much_loss_fails_in_its_window() {
    let data = pseudo_random(2000, 6);
    let (qr, ecc) = qr_of(&data, "l.bin");
    let mut session = DecodeSession::new(1);
    session.on_frame(&blank(), Some(qr)).unwrap();
    session.on_frame(&data_frame(&ecc, 0), None).unwrap();
    let r = session.on_frame(&data_frame(&ecc, 20), None);
    assert!(matches!(
        r.err(),
        Some(DecodeError::WindowFailed(e)) if e.offset == 0
    ));
}

#[test]
fn wrong_digest_is_reported() {
    let data = pseudo_random(50, 8);
    let (mut qr, ecc) = qr_of(&data, "w.bin");
    qr.sha256 = Some("0".repeat(64));
    let mut session = DecodeSession::new(4);
    session.on_frame(&blank(), Some(qr)).unwrap();
    let mut file = Vec::new();
    for k in 0..ecc.len().div_ceil(57) {
        file.extend(session.on_frame(&data_frame(&ecc, k), None).unwrap().bytes);
    }
    match session.finish().unwrap() {
        Ending::Streamed { tail, report, .. } => {
            file.extend(tail);
            assert_eq!(file, data);
            assert!(!report.sha_ok);
            assert_eq!(report.verdict().err(), Some(DecodeError::ShaMismatch));
        }
        Ending::Collected { .. } => panic!("metadata was given"),
    }
}

#[test]
fn frames_seen_before_the_metadata_are_kept() {
    let data = pseudo_random(300, 9);
    let (qr, ecc) = qr_of(&data, "k.bin");
    let frames = ecc.len().div_ceil(57);
    let mut session = DecodeSession::new(1);
    let mut file = Vec::new();
    for k in 0..4 {
        let step = session.on_frame(&data_frame(&ecc, k), None).unwrap();
        assert!(step.opened.is_none() && step.bytes.is_empty());
    }
    let step = session.on_frame(&blank(), Some(qr)).unwrap();
    assert_eq!(step.opened.as_deref(), Some("k.bin"));
    file.extend(step.bytes);
    for k in 4..frames {
        file.extend(session.on_frame(&data_frame(&ecc, k), None).unwrap().bytes);
    }
    // Beyond the last frame there is nothing.
    session.on_frame(&make_frame(frames as u64, &[1u8; 57], 16), None).unwrap();
    match session.finish().unwrap() {
        Ending::Streamed { tail, counts, .. } => {
            file.extend(tail);
            assert_eq!(file, data);
            // Frames seen before the metadata are not counted again.
            assert_eq!(counts.valid, frames - 4);
            assert_eq!(counts.missing, 4);
        }
        Ending::Collected { .. } => panic!("metadata was given"),
    }
}

#[test]
fn metadata_with_another_index_width() {
    let data = pseudo_random(100, 10);
    let (mut qr, ecc) = qr_of(&data, "i.bin");
    qr.index_bits = Some(32);
    qr.frames = Some(ecc.len().div_ceil(55) as u64);
    let mut session = DecodeSession::new(8);
    // Read with the wrong width, this frame is dropped.
    session.on_frame(&data_frame(&ecc, 0), None).unwrap();
    session.on_frame(&blank(), Some(qr)).unwrap();
    let mut file = Vec::new();
    for k in 0..ecc.len().div_ceil(55) {
        let mut part: Vec<u8> = ecc.iter().copied().skip(k * 55).take(55).collect();
        part.resize(55, 0);
        let frame = make_frame(k as u64, &part, 32);
        file.extend(session.on_frame(&frame, None).unwrap().bytes);
    }
    match session.finish().unwrap() {
        Ending::Streamed { tail, report, .. } => {
            file.extend(tail);
            assert_eq!(file, data);
            assert!(report.sha_ok);
        }
        Ending::Collected { .. } => panic!("metadata was given"),
    }
}

/// What a session without metadata collects.
fn collected(
    frames: &[Vec<u8>],
    qr: Option<QrMeta>,
) -> Result<(Vec<u8>, Vec<bool>, Option<QrMeta>, FrameCounts), DecodeError> {
    let mut session = DecodeSession::new(1);
    for (i, f) in frames.iter().enumerate() {
        session.on_frame(f, if i == 0 { qr.clone() } else { None }).unwrap();
    }
    match session.finish()? {
        Ending::Collected { raw, seen, qr, counts } => Ok((raw, seen, qr, counts)),
        Ending::Streamed { .. } => panic!("no metadata was given"),
    }
}

/// The file in what was collected, by the metadata in the payload itself.
fn recover(raw: &[u8], seen: &[bool], qr: Option<QrMeta>) -> Result<(DecodeReport, Vec<u8>), DecodeError> {
    let repaired = repaired_metadata(raw, seen).and_then(|json| Some((json.len(), read_meta(&json)?)));
    let clear = || {
        clear_metadata(raw).ok().and_then(|json| Some((json.len(), read_meta(&json)?)))
    };
    let (meta_len, meta) = repaired
        .or_else(clear)
        .ok_or(DecodeError::BadPayload(PayloadError::BadMetadata))?;
    let known = qr.as_ref().and_then(|m| m.size);
    let payload = collected_payload(raw, seen, meta_len, meta.size, known)?;
    let meta = payload_metadata(&payload).ok().and_then(|json| read_meta(&json));
    extract_file(&payload, meta, qr)
}

/// The payload of a file, its metadata, and its ECC stream.
fn payload_of(data: &[u8], name: &str) -> (Vec<u8>, Vec<u8>) {
    let payload = assemble_payload(&meta_json(&meta_of(data, name)), data);
    let ecc = ecc_encode(&payload);
    (payload, ecc)
}

#[test]
fn without_metadata_frames_are_put_together() {
    // Payloads that end inside a block, at its end, and behind it.
    for len in [1usize, 50, 92, 93, 94, 95, 96, 97, 300, 12_604] {
        let data = pseudo_random(len, 11);
        let (payload, ecc) = payload_of(&data, "f.bin");
        let count = ecc.len().div_ceil(57);
        let frames: Vec<Vec<u8>> = (0..count).rev().map(|k| data_frame(&ecc, k)).collect();
        let (raw, seen, _, counts) = collected(&frames, None).unwrap();
        assert_eq!(counts.valid, count);
        assert_eq!(counts.missing, 0);
        assert_eq!(raw.len(), count * 57);
        assert_eq!(&raw[..ecc.len()], &ecc[..]);
        assert!(seen.iter().all(|&s| s));
        let json = meta_json(&meta_of(&data, "f.bin"));
        assert_eq!(clear_metadata(&raw).unwrap(), json);
        assert_eq!(complete_payload(&raw, &seen, payload.len()).unwrap(), payload);
        assert_eq!(reassembled_payload(&raw, &seen, json.len(), len as u64).unwrap(), payload);
        let (report, file) = recover(&raw, &seen, None).unwrap();
        assert_eq!(file, data);
        assert_eq!(report.filename, "f.bin");
        assert_eq!(report.size, len);
        assert!(report.sha_ok);
    }
}

#[test]
fn a_payload_of_224_bytes_comes_back_without_metadata() {
    // Six frames: one whole block, and one with a single data byte.
    let data = (0..224usize)
        .map(|n| pseudo_random(n, 21))
        .find(|d| payload_of(d, "six.bin").0.len() == 224)
        .unwrap();
    let (payload, ecc) = payload_of(&data, "six.bin");
    assert_eq!(ecc.len(), 288);
    let frames: Vec<Vec<u8>> = (0..6).map(|k| data_frame(&ecc, k)).collect();
    let (raw, seen, qr, _) = collected(&frames, None).unwrap();
    assert_eq!(raw.len(), 342);
    assert_eq!(complete_payload(&raw, &seen, 224).unwrap(), payload);
    let (report, file) = recover(&raw, &seen, qr).unwrap();
    assert_eq!(file, data);
    assert_eq!(report.sha256, meta_of(&data, "six.bin").sha256);
    assert!(report.sha_ok);
}

#[test]
fn without_metadata_losses_are_repaired() {
    let data = pseudo_random(1000, 14);
    let (_, ecc) = payload_of(&data, "r.bin");
    let count = ecc.len().div_ceil(57);
    // The bytes of this frame lie across two blocks, no more than 32 in either.
    let lost = (0..count).find(|k| (26..=32).contains(&(255 - k * 57 % 255))).unwrap();
    let frames: Vec<Vec<u8>> =
        (0..count).filter(|&k| k != lost).map(|k| data_frame(&ecc, k)).collect();
    let (raw, seen, _, counts) = collected(&frames, None).unwrap();
    assert_eq!(counts.missing, 1);
    assert_eq!(recover(&raw, &seen, None).unwrap().1, data);
}

#[test]
fn a_damaged_header_is_repaired() {
    let data = pseudo_random(1000, 15);
    let (_, ecc) = payload_of(&data, "h.bin");
    let mut damaged = ecc.clone();
    for byte in damaged.iter_mut().take(12) {
        *byte ^= 0x55;
    }
    let count = ecc.len().div_ceil(57);
    let frames: Vec<Vec<u8>> = (0..count).map(|k| data_frame(&damaged, k)).collect();
    let (raw, seen, _, _) = collected(&frames, None).unwrap();
    assert!(clear_metadata(&raw).is_err());
    let json = meta_json(&meta_of(&data, "h.bin"));
    assert_eq!(repaired_metadata(&raw, &seen), Some(json));
    assert_eq!(recover(&raw, &seen, None).unwrap().1, data);
}

#[test]
fn a_damaged_header_in_a_short_stream_is_repaired() {
    // Frames that do not fill a block: one short codeword and zeros behind it.
    let data = vec![0xC3u8];
    let (_, ecc) = payload_of(&data, "t");
    assert!(ecc.len() < 171);
    let mut damaged = ecc.clone();
    // The length, and part of the JSON.
    for i in [0, 1, 2, 3, 5, 8, 13, 21, 34, 55, 60, 61, 62, 63, 64, 65] {
        damaged[i] ^= 0xA5;
    }
    let frames: Vec<Vec<u8>> = (0..3).map(|k| data_frame(&damaged, k)).collect();
    let (raw, seen, _, _) = collected(&frames, None).unwrap();
    assert_eq!(raw.len(), 171);
    assert!(clear_metadata(&raw).is_err());
    assert_eq!(repaired_metadata(&raw, &seen), Some(meta_json(&meta_of(&data, "t"))));
    let (report, file) = recover(&raw, &seen, None).unwrap();
    assert_eq!(file, data);
    assert!(report.sha_ok);
    // Too short to hold a length, or anything.
    assert_eq!(repaired_metadata(&[0u8; 35], &[true; 35]), None);
    assert_eq!(repaired_metadata(&[0u8; 20], &[true; 20]), None);
    assert_eq!(repaired_metadata(&[], &[]), None);
}

#[test]
fn a_header_that_ends_in_a_short_block_is_repaired() {
    let data = vec![7u8; 3];
    let name = "m".repeat(200);
    let meta = meta_of(&data, &name);
    let json = meta_json(&meta);
    let (payload, ecc) = payload_of(&data, &name);
    assert!(4 + json.len() > 223 && ecc.len() < 510);
    let mut damaged = ecc.clone();
    for i in 0..16 {
        damaged[10 * i] ^= 0x11;
        damaged[255 + i] ^= 0x22;
    }
    let count = ecc.len().div_ceil(57);
    let frames: Vec<Vec<u8>> = (0..count).map(|k| data_frame(&damaged, k)).collect();
    let (raw, seen, _, _) = collected(&frames, None).unwrap();
    assert_eq!(repaired_metadata(&raw, &seen), Some(json));
    assert_eq!(complete_payload(&raw, &seen, payload.len()).unwrap(), payload);
    assert_eq!(recover(&raw, &seen, None).unwrap().1, data);
}

#[test]
fn a_greater_known_size_is_read_on_to() {
    let data = pseudo_random(300, 18);
    // The header tells a smaller file than the stream holds.
    let mut meta = meta_of(&data, "g.bin");
    meta.size = 250;
    let json = meta_json(&meta);
    let payload = assemble_payload(&json, &data);
    let ecc = ecc_encode(&payload);
    let seen = vec![true; ecc.len()];
    assert_eq!(collected_payload(&ecc, &seen, json.len(), 250, Some(300)), Ok(payload.clone()));
    let qr = QrMeta { size: Some(300), ..QrMeta::default() };
    let (report, file) = recover(&ecc, &seen, Some(qr)).unwrap();
    assert_eq!(file, data);
    assert!(report.sha_ok);
    // A smaller known size does not shorten the stream.
    let whole = payload_of(&data, "g.bin");
    let qr = QrMeta { size: Some(20), ..QrMeta::default() };
    let seen = vec![true; whole.1.len()];
    assert_eq!(recover(&whole.1, &seen, Some(qr)).unwrap().1, &data[..20]);
    // Where the stream does not end at the size, its whole blocks are read.
    let seen = vec![true; ecc.len()];
    let got = collected_payload(&ecc, &seen, json.len(), 260, None).unwrap();
    assert_eq!(got, &payload[..223]);
    assert_eq!(
        collected_payload(&[1u8; 40], &[true; 40], 0, 100, None).err(),
        Some(DecodeError::BadPayload(PayloadError::EndedEarly))
    );
}

#[test]
fn metadata_longer_than_a_block_is_repaired() {
    let data = pseudo_random(700, 16);
    let meta = meta_of(&data, &"n".repeat(300));
    let json = meta_json(&meta);
    let payload = assemble_payload(&json, &data);
    let mut raw = ecc_encode(&payload);
    let mut seen = vec![true; raw.len()];
    for i in 0..20 {
        raw[i] = 0;
        seen[i] = false;
        raw[260 + i] ^= 1;
        if i >= 16 {
            raw[260 + i] ^= 1;
        }
    }
    assert_eq!(repaired_metadata(&raw, &seen), Some(json));
    let (report, file) = recover(&raw, &seen, None).unwrap();
    assert_eq!(file, data);
    assert_eq!(report.filename, "n".repeat(300));
}

#[test]
fn sizes_that_do_not_fit_are_refused() {
    let (payload, ecc) = payload_of(&pseudo_random(100, 17), "s.bin");
    let seen = vec![true; ecc.len()];
    let meta_len = payload.len() - 104;
    assert_eq!(reassembled_payload(&ecc, &seen, meta_len, 100), Ok(payload));
    assert_eq!(
        reassembled_payload(&ecc, &seen, meta_len, 101),
        Err(DecodeError::BadPayload(PayloadError::EndedEarly))
    );
    assert_eq!(
        reassembled_payload(&ecc, &seen, meta_len, u64::MAX),
        Err(DecodeError::BadPayload(PayloadError::SizeOverflow))
    );
    assert_eq!(clear_metadata(&[0, 0, 0]), Err(PayloadError::TooShortForLength));
    assert_eq!(clear_metadata(&[0, 0, 0, 9, 1]), Err(PayloadError::TooShortForMetadata));
}

#[test]
fn file_is_taken_out_of_a_payload() {
    let data = pseudo_random(500, 12);
    let meta = meta_of(&data, "own.bin");
    let payload = assemble_payload(&meta_json(&meta), &data);
    let read = || read_meta(&payload_metadata(&payload).unwrap());
    let (report, file) = extract_file(&payload, read(), None).unwrap();
    assert_eq!(file, data);
    assert_eq!(report.filename, "own.bin");
    assert_eq!(report.size, 500);
    assert!(report.sha_ok);
    // What QR metadata says counts first.
    let qr = QrMeta {
        filename: Some("qr.bin".to_string()),
        size: Some(499),
        ..QrMeta::default()
    };
    let (report, file) = extract_file(&payload, read(), Some(qr)).unwrap();
    assert_eq!(file, &data[..499]);
    assert_eq!(report.filename, "qr.bin");
    assert!(!report.sha_ok);
    assert_eq!(
        extract_file(&payload[..100], read(), None).err(),
        Some(DecodeError::BadPayload(PayloadError::TooShortForMetadata))
    );
    assert_eq!(
        extract_file(&payload, None, None).err(),
        Some(DecodeError::BadPayload(PayloadError::BadMetadata))
    );
}

#[test]
fn reassembly_fails_where_too_much_is_lost() {
    let data = pseudo_random(1000, 13);
    let (payload, ecc) = payload_of(&data, "x");
    let last = ecc.len().div_ceil(57) - 1;
    let frames = vec![data_frame(&ecc, 0), data_frame(&ecc, 1), data_frame(&ecc, last)];
    let (raw, seen, _, _) = collected(&frames, None).unwrap();
    let meta_len = payload.len() - 1004;
    assert!(matches!(
        reassembled_payload(&raw, &seen, meta_len, 1000),
        Err(DecodeError::StreamFailed(_))
    ));
    assert!(recover(&raw, &seen, None).is_err());
    // Metadata without a number of frames does not help.
    let (mut qr, _) = qr_of(b"x", "x");
    qr.frames = None;
    let (raw, seen, qr, _) = collected(&frames, Some(qr)).unwrap();
    assert_eq!(qr.as_ref().unwrap().filename.as_deref(), Some("x"));
    assert!(recover(&raw, &seen, qr).is_err());
}
