//! Reed-Solomon coding: whole streams, errors, erasures and gaps.

use framevault::cells::decode_cells;
use framevault::constants::RS_DATA_BYTES;
use framevault::frame::select_index_bits;
use framevault::rs::{ecc_encode, ecc_len_for, rs_decode, BlockFailure, ReedSolomonError};

#[test]
fn round_trip_various_sizes() {
    for &n in &[1usize, 22, 100, 222, 223, 224, 255, 446, 500, 1000, 5000, 100 * 1024] {
        let data: Vec<u8> = (0..n).map(|i| (i % 256) as u8).collect();
        let ecc = ecc_encode(&data);
        assert_eq!(ecc.len(), ecc_len_for(n), "ecc size for {n} bytes");
        let recovered = rs_decode(&ecc, None).expect("decode");
        assert_eq!(recovered, data, "round trip for {n} bytes");
    }
}

#[test]
fn corrects_16_errors_per_block() {
    // RS with 32 ECC symbols corrects up to floor(32/2) = 16 byte errors.
    let data: Vec<u8> = (0..223).map(|i| i as u8).collect();
    let mut ecc = ecc_encode(&data);
    for i in 0..16 {
        ecc[i * 3] ^= 0xFF;
    }
    let recovered = rs_decode(&ecc, None).expect("decode with 16 errors");
    assert_eq!(recovered, data);
}

#[test]
fn corrects_32_erasures_per_block() {
    // With known erasure positions, RS corrects up to 32 (= ecc_len) per block.
    let data: Vec<u8> = (0..223).map(|i| i as u8).collect();
    let mut ecc = ecc_encode(&data);
    let positions: Vec<usize> = (0..32).collect();
    for &p in &positions {
        ecc[p] = 0;
    }
    let recovered = rs_decode(&ecc, Some(&positions)).expect("decode with 32 erasures");
    assert_eq!(recovered, data);
}

#[test]
fn too_many_erasures_fails() {
    let data: Vec<u8> = (0..223).map(|i| i as u8).collect();
    let ecc = ecc_encode(&data);
    let positions: Vec<usize> = (0..33).collect(); // 33 > 32 ecc symbols
    assert!(rs_decode(&ecc, Some(&positions)).is_err());
}

#[test]
fn short_block_errors_not_panics() {
    // A block at/under the ECC length must return an error, never panic.
    assert!(rs_decode(&[0u8; 10], None).is_err());
}

#[test]
fn multi_block_erasures_mapped_per_block() {
    let data: Vec<u8> = (0..600).map(|i| (i % 256) as u8).collect();
    let mut ecc = ecc_encode(&data); // 3 blocks: 255, 255, 186
    let positions = vec![0usize, 5, 17, 255, 260, 280, 510, 515, 540];
    for &p in &positions {
        ecc[p] = 0;
    }
    let recovered = rs_decode(&ecc, Some(&positions)).expect("decode multi-block");
    assert_eq!(recovered, data);
}

#[test]
fn index_selection_at_rs_boundaries() {
    for &size in &[1usize, 100, 1024, 10 * 1024, 100 * 1024] {
        let ecc = ecc_encode(&vec![0u8; size]);
        assert_eq!(select_index_bits(ecc.len()), 16, "expected 16-bit for {size}");
    }
}

#[test]
fn parallel_rs_round_trip() {
    let payload = b"FrameVault parallel ECC test\n".repeat(200);
    let ecc = ecc_encode(&payload);
    assert_eq!(rs_decode(&ecc, None).unwrap(), payload);
}

#[test]
fn video_only_rs_decode_clean() {
    let payload = b"video-only decode test\n".repeat(100);
    let ecc = ecc_encode(&payload);
    assert_eq!(rs_decode(&ecc, None).unwrap(), payload);
}

fn rs_round_trip(size_bytes: usize) {
    let payload: Vec<u8> = (0..size_bytes).map(|i| (i % 256) as u8).collect();
    let ecc = ecc_encode(&payload);
    assert_eq!(ecc.len(), ecc_len_for(size_bytes), "ecc size {size_bytes}");
    assert_eq!(rs_decode(&ecc, None).unwrap(), payload, "round trip {size_bytes}");
}

#[test]
fn rs_round_trip_sizes() {
    for &n in &[
        1,
        22,
        100,
        1024,
        10 * 1024,
        100 * 1024,
        RS_DATA_BYTES,
        RS_DATA_BYTES - 1,
        RS_DATA_BYTES + 1,
        RS_DATA_BYTES * 7 + 99,
    ] {
        rs_round_trip(n);
    }
}

#[test]
fn stream_lengths() {
    assert_eq!(ecc_len_for(0), 0);
    assert_eq!(ecc_len_for(1), 33);
    assert_eq!(ecc_len_for(223), 255);
    assert_eq!(ecc_len_for(224), 255 + 33);
    assert!(ecc_encode(&[]).is_empty());
    assert_eq!(rs_decode(&[], None), Ok(vec![]));
}

#[test]
fn data_comes_before_its_parity() {
    let data: Vec<u8> = (0..300).map(|i| (i * 11) as u8).collect();
    let ecc = ecc_encode(&data);
    assert_eq!(&ecc[..223], &data[..223]);
    assert_eq!(&ecc[255..255 + 77], &data[223..]);
    assert!(ecc[223..255].iter().any(|&b| b != 0));
}

#[test]
fn stream_is_coded_block_by_block() {
    let data: Vec<u8> = (0..2000).map(|i| (i * 31 + 7) as u8).collect();
    let cut = 223 * 3;
    let mut parts = ecc_encode(&data[..cut]);
    parts.extend(ecc_encode(&data[cut..]));
    assert_eq!(ecc_encode(&data), parts);
}

#[test]
fn first_failure_is_reported() {
    let data = vec![5u8; 1500];
    let mut ecc = ecc_encode(&data);
    ecc.truncate(255 * 6 + 20); // a seventh block without data
    assert_eq!(
        rs_decode(&ecc, None),
        Err(ReedSolomonError(BlockFailure::TooShort { len: 20 }))
    );
    let erased: Vec<usize> = (300..340).collect(); // 40 in the second block
    assert_eq!(
        rs_decode(&ecc, Some(&erased)),
        Err(ReedSolomonError(BlockFailure::TooManyErrors))
    );
}

#[test]
fn errors_and_erasures_together() {
    let data: Vec<u8> = (0..223).map(|i| (i * 3) as u8).collect();
    let mut ecc = ecc_encode(&data);
    let erased: Vec<usize> = (0..20).collect();
    for &p in &erased {
        ecc[p] = 0;
    }
    for p in 100..106 {
        ecc[p] ^= 0x55; // 2 * 6 + 20 = 32
    }
    assert_eq!(rs_decode(&ecc, Some(&erased)).unwrap(), data);
}

#[test]
fn lost_bytes_are_gaps() {
    let data: Vec<u8> = (0..1000).map(|i| (i % 251) as u8).collect();
    let mut ecc = ecc_encode(&data);
    let mut seen = vec![true; ecc.len()];
    // A lost frame of 57 bytes that lies across two blocks.
    for p in 228..285 {
        ecc[p] = 0;
        seen[p] = false;
    }
    assert_eq!(decode_cells(&ecc, &seen), Ok(data));
    // Six more bytes are too many for the second of them.
    for p in 285..291 {
        ecc[p] = 0;
        seen[p] = false;
    }
    assert_eq!(
        decode_cells(&ecc, &seen),
        Err(ReedSolomonError(BlockFailure::TooManyErrors))
    );
}

#[test]
fn a_short_block_fails_whatever_is_erased() {
    for len in [1usize, 10, 32] {
        let block = vec![7u8; len];
        let short = Err(ReedSolomonError(BlockFailure::TooShort { len }));
        assert_eq!(rs_decode(&block, None), short);
        assert_eq!(rs_decode(&block, Some(&[3, 3])), short);
        assert_eq!(rs_decode(&block, Some(&[0])), short);
    }
    // Behind a whole block too.
    let mut stream = ecc_encode(&[5u8; 223]);
    stream.extend([0u8; 9]);
    assert_eq!(
        rs_decode(&stream, Some(&[256, 256])),
        Err(ReedSolomonError(BlockFailure::TooShort { len: 9 }))
    );
}

#[test]
fn more_than_32_named_positions_fail() {
    // However often a position is named.
    let ecc = ecc_encode(&[1u8; 223]);
    let hopeless = Err(ReedSolomonError(BlockFailure::TooManyErrors));
    assert_eq!(rs_decode(&ecc, Some(&[4; 33])), hopeless);
    let mut seen = vec![true; 255];
    let mut buf = ecc.clone();
    for i in 0..33 {
        seen[7 * i] = false;
        buf[7 * i] = 0;
    }
    assert_eq!(decode_cells(&buf, &seen), hopeless);
    seen[0] = true;
    buf[0] = ecc[0];
    assert_eq!(decode_cells(&buf, &seen), Ok(vec![1u8; 223]));
}

#[test]
fn hopeless_blocks_with_erasures_fail() {
    // Some of these lead the decoder to an error on an erased position.
    let data: Vec<u8> = (0..223).map(|i| (i * 7 + 3) as u8).collect();
    let ecc = ecc_encode(&data);
    for shift in 0..60usize {
        let positions: Vec<usize> = (0..30).collect();
        let mut block = ecc.clone();
        for &p in &positions {
            block[p] = 0;
        }
        block[100 + shift] ^= 0x5a;
        block[160 + shift] ^= (shift + 1) as u8;
        if let Ok(d) = rs_decode(&block, Some(&positions)) {
            // Two errors are one too many: never the data itself.
            assert_ne!(d, data);
        }
    }
}

#[test]
fn naming_a_position_twice_says_no_more() {
    // A block that is a codeword once the byte is zeroed.
    assert_eq!(rs_decode(&[0u8; 255], Some(&[3, 3])), Ok(vec![0u8; 223]));
    let data: Vec<u8> = (0..223).map(|i| (i * 5 + 1) as u8).collect();
    let mut block = ecc_encode(&data);
    for p in [3, 40, 41] {
        block[p] = 0;
    }
    assert_eq!(rs_decode(&block, Some(&[3, 40, 3, 41, 41])), Ok(data.clone()));
    // A repeated name in one block and a short block behind it.
    block.extend([0u8; 20]);
    assert_eq!(
        rs_decode(&block, Some(&[3, 3, 40, 41])),
        Err(ReedSolomonError(BlockFailure::TooShort { len: 20 }))
    );
    assert_eq!(rs_decode(&[], Some(&[3, 3])), Ok(vec![]));
}

#[test]
fn a_codeword_with_zeros_behind_it_decodes() {
    let data: Vec<u8> = (0..50).map(|i| (i * 3 + 9) as u8).collect();
    let word = ecc_encode(&data);
    let mut block = word.clone();
    block.resize(114, 0);
    for i in 0..16 {
        block[7 * i] ^= 0x3c;
    }
    let got = rs_decode(&block, None).unwrap();
    assert_eq!(&got, &word[..82]);
}
