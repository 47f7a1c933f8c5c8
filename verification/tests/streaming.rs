//! Coding in batches, planning, and frames drawn from a stream.

use framevault::constants::{METADATA_FRAMES, RS_DATA_BYTES};
use framevault::encode::{
    can_plan, plan, report, DataFrameProducer, EncodePlan, FrameSource, NextFrame, TooManyFrames,
};
use framevault::frame::make_frame_luma;
use framevault::metadata::Meta;
use framevault::rs::{ecc_encode, ecc_len_for};
use framevault::stream::StreamingEcc;

/// Streams `payload`, supplied in pieces of at most `piece` bytes, read in
/// pieces of at most `max` bytes.
fn stream_all(payload: &[u8], batch_blocks: usize, piece: usize, max: usize) -> Vec<u8> {
    let mut s = StreamingEcc::new(batch_blocks);
    let mut at = 0;
    let mut out = Vec::new();
    loop {
        if s.needs_input() {
            let n = s.room().min(piece).min(payload.len() - at);
            s.supply(&payload[at..at + n]);
            at += n;
            continue;
        }
        let part = s.read(max);
        if part.is_empty() {
            return out;
        }
        out.extend(part);
    }
}

#[test]
fn streaming_matches_one_shot() {
    // Cross a few batch sizes with a range of payload sizes: the alignment to blocks
    // holds regardless of the caller's memory budget.
    for &batch_blocks in &[1usize, 4, 256] {
        let batch = RS_DATA_BYTES * batch_blocks;
        let sizes = [
            0usize,
            1,
            222,
            223,
            224,
            255,
            batch - 1,
            batch,
            batch + 1,
            2 * batch,
            2 * batch + 7,
            3 * batch + RS_DATA_BYTES + 5,
        ];
        for &n in &sizes {
            let payload: Vec<u8> = (0..n).map(|i| (i * 31 + 7) as u8).collect();
            assert_eq!(
                stream_all(&payload, batch_blocks, usize::MAX, usize::MAX),
                ecc_encode(&payload),
                "ecc mismatch at n={n}, batch_blocks={batch_blocks}"
            );
        }
    }
}

#[test]
fn pieces_do_not_matter() {
    let payload: Vec<u8> = (0..3000).map(|i| (i * 17) as u8).collect();
    let whole = ecc_encode(&payload);
    for &piece in &[1usize, 7, 222, 223, 224, 1000] {
        for &max in &[1usize, 57, 300] {
            assert_eq!(stream_all(&payload, 2, piece, max), whole);
        }
    }
    // No blocks per batch means one.
    assert_eq!(stream_all(&payload, 0, 100, 100), whole);
}

#[test]
fn plan_values() {
    assert_eq!(
        plan(100, 1000),
        Ok(EncodePlan {
            ecc_len: 1100 + 5 * 32,
            index_bits: 16,
            data_bytes_per_frame: 57,
            num_data_frames: 23,
            total_frames: 53,
        })
    );
    let big = plan(0, 10 * 1024 * 1024).unwrap();
    assert_eq!(big.index_bits, 32);
    assert_eq!(big.data_bytes_per_frame, 55);
    assert_eq!(big.ecc_len, ecc_len_for(10 * 1024 * 1024));
    assert_eq!(big.num_data_frames, big.ecc_len.div_ceil(55));
}

#[test]
fn too_many_frames_are_refused() {
    let size: u64 = 300 * 1024 * 1024 * 1024;
    let frames = ecc_len_for(size as usize).div_ceil(55);
    assert_eq!(plan(0, size), Err(TooManyFrames(frames)));
    // The last size that fits, and the first that does not.
    let last = (1u64 << 32) * 55;
    let data = last / 255 * 223 + (last % 255 - 32);
    assert_eq!(ecc_len_for(data as usize) as u64, last);
    assert_eq!(plan(0, data).unwrap().num_data_frames, 1 << 32);
    assert_eq!(plan(0, data + 1), Err(TooManyFrames((1 << 32) + 1)));
}

#[test]
fn report_repeats_the_plan() {
    let meta = Meta {
        v: 5,
        filename: "r.bin".to_string(),
        size: 1000,
        sha256: "ab".to_string(),
    };
    let p = plan(100, 1000).unwrap();
    let r = report(&meta, &p);
    assert_eq!(r.filename, "r.bin");
    assert_eq!(r.size, 1000);
    assert_eq!(r.sha256, "ab");
    assert_eq!(r.ecc_len, 1260);
    assert_eq!(r.index_bits, 16);
    assert_eq!(r.num_data_frames, 23);
    assert_eq!(r.total_frames, 53);
}

#[test]
fn frames_carry_the_stream() {
    let payload: Vec<u8> = (0..700).map(|i| (i * 13 + 1) as u8).collect();
    let ecc = ecc_encode(&payload);
    let mut p = DataFrameProducer::new(1, 16);
    assert!(p.needs_input());
    let mut at = 0;
    let mut k = 0;
    while k < ecc.len().div_ceil(57) + 1 {
        match p.next_frame() {
            NextFrame::NeedInput => {
                let n = p.room().min(100).min(payload.len() - at);
                p.supply(&payload[at..at + n]);
                at += n;
            }
            NextFrame::Luma(luma) => {
                let mut data: Vec<u8> =
                    ecc.iter().copied().skip(k * 57).take(57).collect();
                data.resize(57, 0); // zeros behind the end of the stream
                assert!(luma == make_frame_luma(k as u64, &data, 16), "frame {k}");
                k += 1;
            }
        }
    }
}

#[test]
fn qr_planes_come_first() {
    let qr = vec![7u8; 10];
    let mut source = FrameSource::new(qr.clone(), 1, 16);
    for _ in 0..METADATA_FRAMES {
        assert!(matches!(source.next(), NextFrame::Luma(l) if l == qr));
    }
    assert!(matches!(source.next(), NextFrame::NeedInput));
    assert_eq!(source.room(), 223);
    source.supply(&[1, 2, 3]);
    assert!(matches!(source.next(), NextFrame::NeedInput));
    source.supply(&[]);
    let mut data = ecc_encode(&[1, 2, 3]);
    data.resize(57, 0);
    assert!(matches!(source.next(), NextFrame::Luma(l) if l == make_frame_luma(0, &data, 16)));
    assert!(
        matches!(source.next(), NextFrame::Luma(l) if l == make_frame_luma(1, &[0u8; 57], 16))
    );
}

#[test]
fn what_can_be_planned() {
    assert!(can_plan(0, 0));
    assert!(can_plan(100, 1000));
    assert!(!can_plan(usize::MAX, u64::MAX));
    // 255 bytes of ECC stream for 223 of payload, eight bits each.
    let blocks = usize::MAX / 8 / 255;
    let most = (blocks * 223) as u64;
    assert!(can_plan(0, most));
    assert!(can_plan(3, most - 3));
    assert!(!can_plan(0, most + 223));
}
