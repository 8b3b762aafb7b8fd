use shift::feistel::Feistel;
use shift::pcg::pcg_hash;
use shift::stateless_shuffle::ShuffleIter;

#[test]
fn can_shuffle_16_things_3_times() {
    let seed = 42;
    let index_bits = 4;
    let round_count = 4;
    let shuffler = ShuffleIter::new(round_count, seed, index_bits);

    for _ in 0..4 {
        for index in 0..16 {
            let shuffled_index = shuffler.to_shuffled_index(index);
            let unshuffled_index = shuffler.from_shuffled_index(shuffled_index);

            assert_eq!(index, unshuffled_index);
        }
    }
}

#[test]
fn can_shuffle_12_things_3_times() {
    let seed = 42;
    let index_bits = 4;
    let round_count = 4;
    let shuffler = ShuffleIter::new(round_count, seed, index_bits);

    for _ in 0..4 {
        for index in 0..16 {
            let shuffled_index = shuffler.to_shuffled_index(index);

            if shuffled_index >= 12 {
                continue;
            }

            let unshuffled_index = shuffler.from_shuffled_index(shuffled_index);

            assert_eq!(index, unshuffled_index);
        }
    }
}

#[test]
fn pcg_hash_known_values() {
    assert_eq!(pcg_hash(0), 129_708_002);
    assert_eq!(pcg_hash(1), 274_717_221);
    assert_eq!(pcg_hash(42), 3_462_145_396);
    assert_eq!(pcg_hash(u32::MAX), 1_592_862_288);
}

#[test]
fn shuffle_known_permutation() {
    let shuffler = ShuffleIter::new(4, 42, 4);
    let expected = [0, 4, 10, 6, 13, 3, 14, 1, 2, 12, 8, 9, 5, 15, 11, 7];
    for index in 0..16u32 {
        assert_eq!(shuffler.to_shuffled_index(index), expected[index as usize]);
        assert_eq!(shuffler.from_shuffled_index(expected[index as usize]), index);
    }
}

#[test]
fn shuffle_image_is_whole_domain() {
    let shuffler = ShuffleIter::new(4, 42, 4);
    let mut seen = vec![false; 16];
    for index in 0..16u32 {
        let s = shuffler.to_shuffled_index(index);
        assert!(s < 16);
        assert!(!seen[s as usize]);
        seen[s as usize] = true;
    }
    assert!(seen.iter().all(|&b| b));
}

#[test]
fn shuffle_is_deterministic() {
    let a = ShuffleIter::new(4, 42, 4);
    let b = ShuffleIter::new(4, 42, 4);
    for index in 0..16u32 {
        assert_eq!(a.to_shuffled_index(index), b.to_shuffled_index(index));
        assert_eq!(a.from_shuffled_index(index), b.from_shuffled_index(index));
    }
}

#[test]
fn changing_seed_changes_permutation() {
    let a = ShuffleIter::new(4, 42, 4);
    let b = ShuffleIter::new(4, 43, 4);
    let expected_b = [6, 8, 4, 11, 1, 5, 3, 15, 10, 0, 2, 14, 9, 7, 12, 13];
    for index in 0..16u32 {
        assert_eq!(b.to_shuffled_index(index), expected_b[index as usize]);
    }
    assert!((0..16u32).any(|i| a.to_shuffled_index(i) != b.to_shuffled_index(i)));
}

#[test]
fn zero_rounds_is_identity() {
    let shuffler = ShuffleIter::new(0, 42, 8);
    for index in 0..256u32 {
        assert_eq!(shuffler.to_shuffled_index(index), index);
        assert_eq!(shuffler.from_shuffled_index(index), index);
    }
}

#[test]
fn odd_width_with_even_rounds_is_bijection() {
    let shuffler = ShuffleIter::new(4, 42, 5);
    let mut seen = vec![false; 32];
    for index in 0..32u32 {
        let s = shuffler.to_shuffled_index(index);
        assert!(s < 32);
        assert!(!seen[s as usize]);
        seen[s as usize] = true;
        assert_eq!(shuffler.from_shuffled_index(s), index);
        assert_eq!(shuffler.to_shuffled_index(shuffler.from_shuffled_index(index)), index);
    }
}

#[test]
fn odd_width_with_odd_rounds_collides() {
    let shuffler = ShuffleIter::new(3, 7, 5);
    let mut images: Vec<u32> = (0..32u32).map(|i| shuffler.to_shuffled_index(i)).collect();
    images.sort();
    images.dedup();
    assert!(images.len() < 32);
}

#[test]
fn width_zero_and_full_width() {
    let single = ShuffleIter::new(4, 42, 0);
    assert_eq!(single.to_shuffled_index(0), 0);
    assert_eq!(single.from_shuffled_index(0), 0);

    let full = ShuffleIter::new(6, 1234, 32);
    assert_eq!(full.to_shuffled_index(0), 3_874_326_448);
    assert_eq!(full.to_shuffled_index(1), 68_481_435);
    assert_eq!(full.to_shuffled_index(u32::MAX), 4_031_555_774);
    for index in [0u32, 1, 2, 12345, 0x8000_0000, u32::MAX] {
        assert_eq!(full.from_shuffled_index(full.to_shuffled_index(index)), index);
    }
}

#[test]
fn feistel_matches_shuffle() {
    let feistel = Feistel::new(4, 42, 4);
    let shuffler = ShuffleIter::new(4, 42, 4);
    for index in 0..16u32 {
        assert_eq!(feistel.encrypt(index), shuffler.to_shuffled_index(index));
        assert_eq!(feistel.decrypt(index), shuffler.from_shuffled_index(index));
    }
}
