//! Constants, frame layout, indices, blocks as pixels and back.

use framevault::bits::{pack_bits, unpack_bits_into};
use framevault::constants::{
    COLS, DEFAULT_FRAME_INDEX_BITS, EXTENDED_FRAME_INDEX_BITS, FRAME_HEIGHT, FRAME_RATE,
    FRAME_WIDTH, MAX_FRAME_COUNT_DEFAULT, MAX_FRAME_COUNT_EXTENDED, METADATA_DURATION_SEC,
    METADATA_FRAMES, ROWS, RS_BLOCK_SIZE, RS_DATA_BYTES, SYNC_BITS, SYNC_PATTERN, TOTAL_BLOCKS,
};
use framevault::frame::{
    bits_to_index, decode_frame, frame_layout, frames_needed, index_to_bits, make_frame,
    make_frame_luma, read_blocks, select_index_bits, BLACK_Y, WHITE_Y,
};

#[test]
fn derived_constants_match_python() {
    assert_eq!(COLS, 30);
    assert_eq!(ROWS, 16);
    assert_eq!(TOTAL_BLOCKS, 480);
    assert_eq!(RS_DATA_BYTES, 223);
    assert_eq!(RS_BLOCK_SIZE, 255);
    assert_eq!(MAX_FRAME_COUNT_DEFAULT, 1 << 16);
    assert_eq!(MAX_FRAME_COUNT_EXTENDED, 1u64 << 32);
    // max(1, round(30 * 1.0)) == 30
    assert_eq!(
        METADATA_FRAMES,
        ((FRAME_RATE as f64 * METADATA_DURATION_SEC as f64).round() as usize).max(1)
    );
}

#[test]
fn layout_values() {
    assert_eq!(frame_layout(DEFAULT_FRAME_INDEX_BITS), (24, 456));
    assert_eq!(frame_layout(EXTENDED_FRAME_INDEX_BITS), (40, 440));
}

#[test]
fn index_bits_round_trip() {
    for &bits in &[16usize, 32] {
        for &idx in &[0u64, 1, 42, 65535, (1u64 << bits) - 1] {
            let v = index_to_bits(idx, bits);
            assert_eq!(v.len(), bits);
            assert_eq!(bits_to_index(&v), idx);
        }
    }
}

#[test]
fn frame_render_read_round_trip() {
    for &index_bits in &[16usize, 32] {
        let (header_bits, data_bits_per_frame) = frame_layout(index_bits);
        let data: Vec<u8> = (0..data_bits_per_frame / 8).map(|i| (i * 7 + 3) as u8).collect();
        for &idx in &[0u64, 1, 1234, 65535] {
            let frame = make_frame(idx, &data, index_bits);
            assert_eq!(frame.len(), FRAME_WIDTH * FRAME_HEIGHT * 3);
            let bits = read_blocks(&frame);
            let (didx, ddata) = decode_frame(&bits, index_bits, header_bits).expect("sync");
            assert_eq!(didx, idx);
            assert_eq!(ddata, data);
        }
    }
}

#[test]
fn corrupted_sync_rejected() {
    let (header_bits, dbpf) = frame_layout(16);
    let mut bits = vec![0u8; TOTAL_BLOCKS];
    bits[..SYNC_BITS].copy_from_slice(&SYNC_PATTERN);
    let _ = dbpf;
    bits[0] ^= 1; // break sync
    assert!(decode_frame(&bits, 16, header_bits).is_none());
}

#[test]
fn index_selection_small_files_use_16bit() {
    assert_eq!(select_index_bits(100), 16);
    assert_eq!(select_index_bits(1024 * 1024), 16);
    assert_eq!(select_index_bits(10 * 1024 * 1024), 32);
}

#[test]
fn index_selection_boundary() {
    let (_, data_bits) = frame_layout(DEFAULT_FRAME_INDEX_BITS);
    let bytes_per_frame = data_bits / 8;
    let max_ecc_16 = MAX_FRAME_COUNT_DEFAULT as usize * bytes_per_frame;
    assert_eq!(select_index_bits(max_ecc_16), 16);
    assert_eq!(select_index_bits(max_ecc_16 + 1), 32);
}

#[test]
fn frame_layout_capacity() {
    let (header16, data16) = frame_layout(DEFAULT_FRAME_INDEX_BITS);
    assert_eq!(header16, SYNC_BITS + DEFAULT_FRAME_INDEX_BITS);
    assert_eq!(data16, TOTAL_BLOCKS - header16);
    assert_eq!(data16, 456);
    assert_eq!(data16 % 8, 0);

    let (header32, data32) = frame_layout(EXTENDED_FRAME_INDEX_BITS);
    assert_eq!(header32, SYNC_BITS + EXTENDED_FRAME_INDEX_BITS);
    assert_eq!(data32, TOTAL_BLOCKS - header32);
    assert_eq!(data32, 440);
    assert_eq!(data32 % 8, 0);
}

#[test]
fn max_frame_counts() {
    assert_eq!(MAX_FRAME_COUNT_DEFAULT, 1 << 16);
    assert_eq!(MAX_FRAME_COUNT_EXTENDED, 1u64 << 32);
}

#[test]
fn theoretical_max_ecc() {
    let (_, data16) = frame_layout(DEFAULT_FRAME_INDEX_BITS);
    let max_ecc_16 = MAX_FRAME_COUNT_DEFAULT as usize * (data16 / 8);
    assert_eq!(max_ecc_16, 3_735_552); // 65536 * 57

    let (_, data32) = frame_layout(EXTENDED_FRAME_INDEX_BITS);
    let max_ecc_32 = MAX_FRAME_COUNT_EXTENDED * (data32 as u64 / 8);
    assert_eq!(max_ecc_32, (1u64 << 32) * 55);
    assert!(max_ecc_32 > 200 * 1024 * 1024 * 1024); // > 200 GB
}

#[test]
fn frames_are_rounded_up() {
    assert_eq!(frames_needed(0, 456), 0);
    assert_eq!(frames_needed(1, 456), 1);
    assert_eq!(frames_needed(456, 456), 1);
    assert_eq!(frames_needed(457, 456), 2);
}

#[test]
fn index_bits_are_most_significant_first() {
    assert_eq!(index_to_bits(5, 4), vec![0, 1, 0, 1]);
    assert_eq!(bits_to_index(&[1, 1, 0]), 6);
    assert_eq!(bits_to_index(&[]), 0);
    // An index is cut to its width.
    assert_eq!(bits_to_index(&index_to_bits(0x1_0005, 16)), 5);
}

#[test]
fn bytes_and_bits() {
    let mut bits = vec![9u8];
    unpack_bits_into(&mut bits, &[0b1010_0001]);
    assert_eq!(bits, vec![9, 1, 0, 1, 0, 0, 0, 0, 1]);
    assert_eq!(pack_bits(&bits[1..]), vec![0b1010_0001]);
    // A trailing partial byte is dropped.
    assert_eq!(pack_bits(&[1, 1, 1, 1, 1, 1, 1, 1, 1]), vec![0xff]);
}

#[test]
fn luma_plane_shows_the_same_blocks() {
    let data: Vec<u8> = (0..57u32).map(|i| (i * 37 + 5) as u8).collect();
    let rgb = make_frame(77, &data, 16);
    let luma = make_frame_luma(77, &data, 16);
    assert_eq!(luma.len(), FRAME_WIDTH * FRAME_HEIGHT);
    for (p, &y) in luma.iter().enumerate() {
        let want = if rgb[3 * p] == 255 { WHITE_Y } else { BLACK_Y };
        assert_eq!(y, want);
    }
    // The sync pattern begins 1, 0.
    assert_eq!(luma[0], WHITE_Y);
    assert_eq!(luma[64], BLACK_Y);
    // Below the grid everything is black.
    assert_eq!(luma[FRAME_WIDTH * 1024], BLACK_Y);
}

#[test]
fn damaged_pixels_do_not_matter() {
    let data: Vec<u8> = (0..57u8).collect();
    let mut frame = make_frame(3, &data, 16);
    for (p, v) in frame.iter_mut().enumerate() {
        let (x, y) = (p / 3 % FRAME_WIDTH, p / 3 / FRAME_WIDTH);
        if x % 64 < 16 || x % 64 >= 48 || y % 64 < 16 || y % 64 >= 48 {
            *v = !*v; // outside the centres of the blocks
        } else if *v == 255 {
            *v = 128;
        } else {
            *v = 127;
        }
    }
    let bits = read_blocks(&frame);
    assert_eq!(decode_frame(&bits, 16, 24), Some((3, data)));
}

#[test]
fn a_frame_with_the_luma_as_red_is_read() {
    let data: Vec<u8> = (0..57u8).map(|i| i.wrapping_mul(91)).collect();
    let luma = make_frame_luma(4321, &data, 16);
    let rgb: Vec<u8> = luma.iter().flat_map(|&y| [y, 0, 255]).collect();
    assert_eq!(decode_frame(&read_blocks(&rgb), 16, 24), Some((4321, data)));
}
