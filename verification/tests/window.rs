//! The sliding window over the ECC stream.

use framevault::constants::RS_BLOCK_SIZE;
use framevault::metadata::{assemble_payload, sha256_hex, PayloadSink};
use framevault::rs::{ecc_encode, BlockFailure, ReedSolomonError};
use framevault::window::{flush_window, write_into_window, Window, WindowError};

/// Drive the window/flush machinery over `ecc` in chunks sized by cycling through
/// `chunk_sizes`, then finish and return the recovered file bytes and their digest.
fn drive_window(
    ecc: &[u8],
    window_bytes: usize,
    chunk_sizes: &[usize],
    expected_size: u64,
) -> (Vec<u8>, String) {
    let mut window = Window::new(window_bytes);
    let mut payload = PayloadSink::new(expected_size);
    let total_ecc_len = ecc.len();
    let mut out = Vec::new();
    let mut pos = 0;
    let mut ci = 0;
    while pos < ecc.len() {
        let sz = chunk_sizes[ci % chunk_sizes.len()].max(1);
        let end = (pos + sz).min(ecc.len());
        out.extend(
            write_into_window(&mut window, &mut payload, total_ecc_len, pos, &ecc[pos..end])
                .unwrap(),
        );
        pos = end;
        ci += 1;
    }
    out.extend(flush_window(&window, &mut payload, total_ecc_len).unwrap());
    (out, payload.finish().sha256)
}

#[test]
fn window_streams_payload_byte_for_byte() {
    let file_bytes: Vec<u8> = (0..2000u32).map(|i| (i % 256) as u8).collect();
    let meta = format!(
        "{{\"v\":5,\"filename\":\"f.bin\",\"size\":{},\"sha256\":\"{}\"}}",
        file_bytes.len(),
        sha256_hex(&file_bytes)
    );
    let payload = assemble_payload(meta.as_bytes(), &file_bytes);
    let ecc = ecc_encode(&payload);

    for &window_blocks in &[1usize, 2, 5] {
        let window_bytes = window_blocks * RS_BLOCK_SIZE;
        let chunk_size_sets: &[&[usize]] = &[&[7, 13, 50], &[window_bytes + 3], &[1]];
        for &chunk_sizes in chunk_size_sets {
            let (out, sha) = drive_window(&ecc, window_bytes, chunk_sizes, 2000);
            assert_eq!(
                out, file_bytes,
                "window_blocks={window_blocks}, chunk_sizes={chunk_sizes:?}"
            );
            assert_eq!(sha, sha256_hex(&file_bytes));
        }
    }
}

#[test]
fn missing_bytes_are_erasures() {
    let file: Vec<u8> = (0..900u32).map(|i| (i * 3) as u8).collect();
    let ecc = ecc_encode(&assemble_payload(b"m", &file));
    let mut window = Window::new(RS_BLOCK_SIZE);
    let mut sink = PayloadSink::new(900);
    let mut out = Vec::new();
    for (at, end) in [(0, 100), (130, 400), (430, ecc.len())] {
        out.extend(
            write_into_window(&mut window, &mut sink, ecc.len(), at, &ecc[at..end]).unwrap(),
        );
    }
    out.extend(flush_window(&window, &mut sink, ecc.len()).unwrap());
    assert_eq!(out, file);
}

#[test]
fn a_hopeless_window_fails_where_it_begins() {
    let ecc = ecc_encode(&assemble_payload(b"m", &[1u8; 900]));
    let mut window = Window::new(RS_BLOCK_SIZE);
    let mut sink = PayloadSink::new(900);
    assert!(write_into_window(&mut window, &mut sink, ecc.len(), 0, &ecc[..300]).is_ok());
    assert_eq!(
        write_into_window(&mut window, &mut sink, ecc.len(), 600, &ecc[600..]),
        Err(WindowError {
            offset: 255,
            error: ReedSolomonError(BlockFailure::TooManyErrors),
        })
    );
}

#[test]
fn late_bytes_are_dropped() {
    let file: Vec<u8> = (0..900u32).map(|i| (i * 5) as u8).collect();
    let ecc = ecc_encode(&assemble_payload(b"m", &file));
    let mut window = Window::new(RS_BLOCK_SIZE);
    let mut sink = PayloadSink::new(900);
    let mut out = write_into_window(&mut window, &mut sink, ecc.len(), 0, &ecc[..300]).unwrap();
    // Garbage for a place that the window has left, and for one it covers.
    assert!(write_into_window(&mut window, &mut sink, ecc.len(), 10, &[0xee; 20])
        .unwrap()
        .is_empty());
    assert!(write_into_window(&mut window, &mut sink, ecc.len(), 250, &[0xee; 10])
        .unwrap()
        .is_empty());
    // What comes again replaces what came before.
    out.extend(write_into_window(&mut window, &mut sink, ecc.len(), 255, &ecc[255..]).unwrap());
    out.extend(flush_window(&window, &mut sink, ecc.len()).unwrap());
    assert_eq!(out, file);
    // Behind the end of the stream there is nothing to decode.
    let end = 10 * RS_BLOCK_SIZE;
    assert!(write_into_window(&mut window, &mut sink, ecc.len(), end, &[1]).is_ok());
    assert_eq!(flush_window(&window, &mut sink, ecc.len()), Ok(vec![]));
}
