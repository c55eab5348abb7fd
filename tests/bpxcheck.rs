use crawdad::bpxcheck::{permute_word, BPXChecker};
use crawdad::INVALID_IDX;

#[test]
fn test_find_base_for_64adjacent() {
    let map = [
        1, 0, 0, 1, 0, 0, 1, 0, 1, 0, 1, 0, 0, 0, 1, 0, 0, 0, 0, 1, 0, 0, 1, 0, 1, 0, 0, 0, 0, 0,
        1, 1, 0, 0, 0, 1, 0, 1, 0, 0, 0, 1, 0, 1, 0, 1, 0, 0, 0, 0, 0, 1, 0, 0, 0, 0, 0, 0, 0, 0,
        1, 0, 0, 1,
    ];
    let labels = [1, 3, 7, 9, 11, 23, 41];
    let expected_bases = [6, 14, 37, 45, 51, 57];

    let mut xc = BPXChecker::new(64);
    for i in 0..64 {
        if map[i] != 0 {
            xc.set_fixed(i as u32);
        }
    }
    for i in 0..64 {
        assert_eq!(xc.is_fixed(i as u32), map[i] != 0);
    }
    let x = xc.disabled_base_mask(0, &labels);
    let mut base_candidates = vec![];
    for i in 0..64 {
        if x & (1u64 << i) == 0 {
            base_candidates.push(i);
        }
    }
    assert_eq!(expected_bases.len(), base_candidates.len());
    for i in 0..expected_bases.len() {
        assert_eq!(expected_bases[i], base_candidates[i]);
    }
}

fn brute_force_valid(xc: &BPXChecker, b: u32, labels: &[u32]) -> bool {
    labels.iter().all(|&l| !xc.is_fixed(b ^ l))
}

#[test]
fn find_base_returns_lowest_valid_base() {
    let mut xc = BPXChecker::new(256);
    for i in [0u32, 1, 2, 5, 64, 65, 66, 67, 100, 130, 131] {
        xc.set_fixed(i);
    }
    let labels = [1u32, 2, 3];
    for origin in [0u32, 10, 64, 70, 128, 191] {
        let front = origin - origin % 64;
        let expected = (front..front + 64).find(|&b| brute_force_valid(&xc, b, &labels));
        let got = xc.find_base_for_64adjacent(origin, &labels);
        match expected {
            Some(b) => assert_eq!(got, b),
            None => assert_eq!(got, INVALID_IDX),
        }
    }
}

#[test]
fn find_base_reports_full_window() {
    let mut xc = BPXChecker::new(128);
    for i in 0..64u32 {
        xc.set_fixed(i);
    }
    assert_eq!(xc.find_base_for_64adjacent(3, &[0]), INVALID_IDX);
    assert_eq!(xc.find_base_for_64adjacent(3, &[64]), 0);
    assert_eq!(xc.find_base_for_64adjacent(70, &[0, 1]), 64);
}

#[test]
fn find_base_with_no_labels_takes_window_front() {
    let xc = BPXChecker::new(64);
    assert_eq!(xc.find_base_for_64adjacent(77, &[]), 64);
}

#[test]
fn disabled_mask_matches_brute_force() {
    let mut xc = BPXChecker::new(192);
    let mut state = 12345u32;
    for i in 0..192u32 {
        state = state.wrapping_mul(1103515245).wrapping_add(12345);
        if (state >> 16) % 3 == 0 {
            xc.set_fixed(i);
        }
    }
    let labels = [0u32, 5, 17, 33, 63, 70];
    for front in [0u32, 64] {
        let x = xc.disabled_base_mask(front, &labels);
        for i in 0..64u32 {
            let disabled = x & (1u64 << i) != 0;
            assert_eq!(disabled, !brute_force_valid(&xc, front + i, &labels));
        }
    }
}

#[test]
fn words_past_the_bitmap_are_occupied() {
    let xc = BPXChecker::new(64);
    assert_eq!(xc.get_word(0), 0);
    assert_eq!(xc.get_word(1), u64::MAX);
    assert_eq!(xc.get_word(0x200_0000), u64::MAX);
    assert!(xc.is_fixed(64));
    assert!(!xc.is_fixed(63));
}

#[test]
fn resize_adds_vacant_words() {
    let mut xc = BPXChecker::new(10);
    assert_eq!(xc.bitmap.len(), 1);
    xc.set_fixed(3);
    xc.resize(200);
    assert_eq!(xc.bitmap.len(), 4);
    assert!(xc.is_fixed(3));
    assert!(!xc.is_fixed(150));
    assert_eq!(BPXChecker::required_word_len(0), 0);
    assert_eq!(BPXChecker::required_word_len(64), 1);
    assert_eq!(BPXChecker::required_word_len(65), 2);
    assert_eq!(BPXChecker::word_index(130), 2);
}

#[test]
fn permute_word_moves_bits_by_xor() {
    let w = 0b1011u64 | (1u64 << 40);
    for label in [0u32, 1, 6, 33, 63, 64 + 5] {
        let r = permute_word(w, label);
        for i in 0..64u64 {
            let src = i ^ (label as u64 & 63);
            assert_eq!((r >> i) & 1, (w >> src) & 1);
        }
    }
}

#[test]
fn set_fixed_updates_one_word() {
    let mut xc = BPXChecker::new(192);
    xc.set_fixed(70);
    xc.set_fixed(71);
    assert_eq!(xc.bitmap, vec![0, (1u64 << 6) | (1u64 << 7), 0]);
}
