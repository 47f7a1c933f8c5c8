//! Placement of audio bytes, and symbols.

use framevault::audio::{
    bytes_to_symbols, compute_audio_positions, merge_audio_bytes, select_audio_bytes,
    spread_position, symbols_to_bytes, AUDIO_LAYOUT_DISTRIBUTED, AUDIO_LAYOUT_PREFIX,
};

#[test]
fn distributed_positions_anchor_and_increase() {
    let pos = compute_audio_positions(1000, 25, Some(AUDIO_LAYOUT_DISTRIBUTED));
    assert_eq!(pos.len(), 25);
    assert_eq!(pos[0], 0);
    assert_eq!(*pos.last().unwrap(), 999);
    assert!(pos.windows(2).all(|w| w[1] > w[0]));
}

#[test]
fn position_edge_cases() {
    assert_eq!(compute_audio_positions(101, 1, Some(AUDIO_LAYOUT_DISTRIBUTED)), vec![50]);
    assert_eq!(compute_audio_positions(100, 1, Some(AUDIO_LAYOUT_DISTRIBUTED)), vec![50]);
    assert_eq!(
        compute_audio_positions(1000, 25, Some(AUDIO_LAYOUT_PREFIX)),
        (0..25).collect::<Vec<_>>()
    );
    assert!(compute_audio_positions(0, 25, Some(AUDIO_LAYOUT_DISTRIBUTED)).is_empty());
    assert!(compute_audio_positions(1000, 0, Some(AUDIO_LAYOUT_DISTRIBUTED)).is_empty());
    assert_eq!(
        compute_audio_positions(128, 128, Some(AUDIO_LAYOUT_DISTRIBUTED)),
        (0..128).collect::<Vec<_>>()
    );
}

#[test]
fn merge_writes_audio_at_planned_positions() {
    let ecc: Vec<u8> = (0..200u8).collect();
    let planned = 10;
    let audio = select_audio_bytes(&ecc, planned, Some(AUDIO_LAYOUT_DISTRIBUTED));
    let blank = vec![0u8; ecc.len()];
    let (merged, positions) =
        merge_audio_bytes(&blank, &audio, planned, Some(AUDIO_LAYOUT_DISTRIBUTED));
    assert_eq!(positions.len(), planned);
    for (i, &p) in positions.iter().enumerate() {
        assert_eq!(merged[p], audio[i]);
    }
}

#[test]
fn ties_go_to_even() {
    // 0, 2.5, 5, 7.5, 10 over eleven bytes.
    assert_eq!(
        compute_audio_positions(11, 5, Some(AUDIO_LAYOUT_DISTRIBUTED)),
        vec![0, 2, 5, 8, 10]
    );
    for (len, count) in [(1000usize, 25usize), (12345, 678), (77, 76), (500_000, 3)] {
        let want: Vec<usize> = (0..count)
            .map(|i| (i as f64 * (len - 1) as f64 / (count - 1) as f64).round_ties_even() as usize)
            .collect();
        assert_eq!(compute_audio_positions(len, count, Some(AUDIO_LAYOUT_DISTRIBUTED)), want);
    }
}

#[test]
fn other_layouts_cover_the_prefix() {
    let first: Vec<usize> = (0..4).collect();
    assert_eq!(compute_audio_positions(9, 4, None), first);
    assert_eq!(compute_audio_positions(9, 4, Some("other")), first);
    // No more positions than bytes.
    assert_eq!(compute_audio_positions(3, 10, None), vec![0, 1, 2]);
    assert_eq!(select_audio_bytes(&[9, 8, 7], 2, None), vec![9, 8]);
}

#[test]
fn merging_selected_bytes_changes_nothing() {
    let ecc: Vec<u8> = (0..250u8).map(|b| b.wrapping_mul(7)).collect();
    for layout in [None, Some(AUDIO_LAYOUT_DISTRIBUTED)] {
        let audio = select_audio_bytes(&ecc, 33, layout);
        assert_eq!(merge_audio_bytes(&ecc, &audio, 33, layout).0, ecc);
    }
}

#[test]
fn merge_edges() {
    assert_eq!(merge_audio_bytes(&[1, 2, 3], &[], 2, None), (vec![1, 2, 3], vec![]));
    assert_eq!(merge_audio_bytes(&[], &[1], 2, None), (vec![], vec![]));
    assert_eq!(merge_audio_bytes(&[1, 2, 3], &[9], 0, None), (vec![1, 2, 3], vec![]));
    // Fewer recovered bytes than planned, and more.
    assert_eq!(merge_audio_bytes(&[1, 2, 3], &[9], 2, None), (vec![9, 2, 3], vec![0]));
    assert_eq!(merge_audio_bytes(&[1, 2, 3], &[9, 8, 7], 2, None), (vec![9, 8, 3], vec![0, 1]));
}

#[test]
fn symbols_of_bytes() {
    assert_eq!(bytes_to_symbols(&[0b1101_0010], 100), vec![3, 1, 0, 2]);
    assert_eq!(bytes_to_symbols(&[0b1101_0010, 0xff], 5), vec![3, 1, 0, 2, 3]);
    let data: Vec<u8> = (0..=255u8).collect();
    let symbols = bytes_to_symbols(&data, usize::MAX);
    assert_eq!(symbols_to_bytes(&symbols), data);
    assert_eq!(symbols_to_bytes(&symbols[..7]), vec![0]);
}

#[test]
fn positions_follow_floating_point() {
    // 134217730.5 exactly, but the product is rounded down before it is divided.
    assert_eq!(spread_position(268_435_458, 134_217_729, 67_108_865), 134_217_730);
    let nearest = |len: usize, count: usize, i: usize| {
        (i as f64 * (len - 1) as f64 / (count - 1) as f64).round_ties_even() as usize
    };
    let lens = [
        1usize << 20,
        (1 << 28) + 2,
        (1 << 40) + 12_345,
        (1 << 49) - 3,
        (1 << 53) + 1,
        usize::MAX - 1,
        usize::MAX,
    ];
    for len in lens {
        for count in [2, 3, len / 7, len / 2 + 1, len - 1] {
            for i in [0, 1, 2, count / 3, count / 2, count - 2, count - 1] {
                let i = i.min(count - 1);
                assert_eq!(
                    spread_position(len, count, i),
                    nearest(len, count, i),
                    "{len} {count} {i}"
                );
            }
        }
    }
}

#[test]
fn spread_is_anchored_in_long_streams() {
    for len in [1usize << 30, (1 << 45) + 7, 1 << 49] {
        for count in [2, 1000, len / 3, len / 2, len - 1] {
            assert_eq!(spread_position(len, count, 0), 0);
            assert_eq!(spread_position(len, count, count - 1), len - 1);
            assert!(spread_position(len, count, count / 2) < len);
        }
    }
}

#[test]
fn neighbours_may_meet_where_floating_point_is_too_coarse() {
    // Nearly every byte of a long stream: positions do not go back, but two meet.
    let at = |i: usize| spread_position(134_217_733, 134_217_732, i);
    assert_eq!(at(67_108_864), 67_108_864);
    assert_eq!(at(67_108_865), 67_108_866);
    assert_eq!(at(67_108_866), 67_108_866);
    assert_eq!(at(67_108_867), 67_108_868);
}
