//! Planes whose rows lie apart.

use framevault::constants::{FRAME_HEIGHT, FRAME_WIDTH};
use framevault::media::{pack_rgb, write_chroma, write_luma, RGB_STRIDE};

#[test]
fn luma_rows_are_spread() {
    let stride = FRAME_WIDTH + 32;
    let luma: Vec<u8> = (0..FRAME_WIDTH * FRAME_HEIGHT).map(|p| (p % 251) as u8).collect();
    let mut plane = vec![255u8; stride * FRAME_HEIGHT];
    write_luma(&mut plane, stride, &luma);
    for y in 0..FRAME_HEIGHT {
        assert_eq!(
            &plane[y * stride..y * stride + FRAME_WIDTH],
            &luma[y * FRAME_WIDTH..(y + 1) * FRAME_WIDTH]
        );
        assert!(plane[y * stride + FRAME_WIDTH..(y + 1) * stride].iter().all(|&b| b == 255));
    }
}

#[test]
fn chroma_is_neutral() {
    let stride = 1000;
    let mut plane = vec![1u8; stride * 540];
    write_chroma(&mut plane, stride);
    for (p, &v) in plane.iter().enumerate() {
        assert_eq!(v, if p % stride < 960 { 128 } else { 1 });
    }
}

#[test]
fn rgb_rows_are_packed() {
    let stride = RGB_STRIDE + 64;
    let data: Vec<u8> = (0..stride * FRAME_HEIGHT).map(|p| (p % 241) as u8).collect();
    let frame = pack_rgb(&data, stride);
    assert_eq!(frame.len(), FRAME_WIDTH * FRAME_HEIGHT * 3);
    for y in [0usize, 1, 539, 1079] {
        assert_eq!(
            &frame[y * RGB_STRIDE..(y + 1) * RGB_STRIDE],
            &data[y * stride..y * stride + RGB_STRIDE]
        );
    }
}
