use streetwarp::optim::{
    frame_hash, hamming_distance, optimize, FrameHash, HashError, OptimizeError, OptimizerConfig,
};

fn hash_of(bits: &[bool]) -> FrameHash {
    FrameHash { bits: bits.to_vec() }
}

fn zeros(n: usize) -> FrameHash {
    FrameHash { bits: vec![false; n] }
}

fn ones(n: usize) -> FrameHash {
    FrameHash { bits: vec![true; n] }
}

#[test]
fn hamming_counts_differing_bits() {
    let a = hash_of(&[true, false, true, true]);
    let b = hash_of(&[false, false, true, false]);
    assert_eq!(hamming_distance(&a, &b), 2);
    assert_eq!(hamming_distance(&a, &a), 0);
}

#[test]
fn default_config_values() {
    let cfg = OptimizerConfig::default();
    assert_eq!(cfg.lookahead, 3);
    assert_eq!(cfg.penalty_num, 200);
    assert_eq!(cfg.penalty_den, 1000);
}

/// All-identical hashes keep every frame: the zero-cost unit step always
/// dominates any skip penalty.
#[test]
fn identical_hashes_keep_all_frames() {
    let hashes = vec![zeros(16), zeros(16), zeros(16), zeros(16), zeros(16)];
    let order = optimize(&hashes, OptimizerConfig::default()).unwrap();
    assert_eq!(order, vec![0, 1, 2, 3, 4]);
}

/// Five frames where frame 2 is far from all its neighbors while the others
/// are identical: with three frames of lookahead and a skip penalty of one
/// fifth, the optimizer drops frame 2.
#[test]
fn optimizer_skips_outlier_frame() {
    let hashes = vec![zeros(10), zeros(10), ones(10), zeros(10), zeros(10)];
    let cfg = OptimizerConfig { lookahead: 3, penalty_num: 200, penalty_den: 1000 };
    let order = optimize(&hashes, cfg).unwrap();
    assert_eq!(order, vec![0, 1, 3, 4]);
}

/// A lookahead of one leaves no room to skip: every frame stays, outlier or
/// not.
#[test]
fn unit_lookahead_keeps_every_frame() {
    let hashes = vec![zeros(10), zeros(10), ones(10), zeros(10), zeros(10)];
    let cfg = OptimizerConfig { lookahead: 1, penalty_num: 200, penalty_den: 1000 };
    let order = optimize(&hashes, cfg).unwrap();
    assert_eq!(order, vec![0, 1, 2, 3, 4]);
}

/// The order always starts at frame 0, ends at the last frame, increases
/// strictly, and never jumps past the lookahead window.
#[test]
fn order_is_admissible() {
    let hashes = vec![
        hash_of(&[true, false, true, false]),
        hash_of(&[true, true, true, false]),
        hash_of(&[false, true, false, true]),
        hash_of(&[true, false, false, false]),
        hash_of(&[false, false, true, true]),
        hash_of(&[true, false, true, true]),
    ];
    let cfg = OptimizerConfig { lookahead: 2, penalty_num: 100, penalty_den: 1000 };
    let order = optimize(&hashes, cfg).unwrap();
    assert_eq!(order[0], 0);
    assert_eq!(*order.last().unwrap(), hashes.len() - 1);
    for w in order.windows(2) {
        assert!(w[0] < w[1]);
        assert!(w[1] - w[0] <= cfg.lookahead);
    }
}

#[test]
fn single_frame_is_trivial_order() {
    let hashes = vec![zeros(8)];
    let order = optimize(&hashes, OptimizerConfig::default()).unwrap();
    assert_eq!(order, vec![0]);
}

#[test]
fn optimizer_rejects_empty_input() {
    let hashes: Vec<FrameHash> = Vec::new();
    assert_eq!(
        optimize(&hashes, OptimizerConfig::default()),
        Err(OptimizeError::EmptyInput)
    );
}

#[test]
fn optimizer_rejects_zero_length_hash() {
    let hashes = vec![hash_of(&[])];
    assert_eq!(
        optimize(&hashes, OptimizerConfig::default()),
        Err(OptimizeError::ZeroLengthHash)
    );
}

#[test]
fn optimizer_rejects_mismatched_hash_lengths() {
    let hashes = vec![zeros(8), zeros(9)];
    assert_eq!(
        optimize(&hashes, OptimizerConfig::default()),
        Err(OptimizeError::MismatchedHashLengths)
    );
}

#[test]
fn optimizer_rejects_zero_lookahead() {
    let hashes = vec![zeros(8)];
    let cfg = OptimizerConfig { lookahead: 0, penalty_num: 200, penalty_den: 1000 };
    assert_eq!(optimize(&hashes, cfg), Err(OptimizeError::BadConfig));
}

#[test]
fn optimizer_rejects_zero_penalty_denominator() {
    let hashes = vec![zeros(8)];
    let cfg = OptimizerConfig { lookahead: 3, penalty_num: 200, penalty_den: 0 };
    assert_eq!(optimize(&hashes, cfg), Err(OptimizeError::BadConfig));
}

#[test]
fn optimizer_rejects_oversized_penalty() {
    let hashes = vec![zeros(8), zeros(8)];
    let cfg = OptimizerConfig { lookahead: 3, penalty_num: 0x4000_0001, penalty_den: 1000 };
    assert_eq!(optimize(&hashes, cfg), Err(OptimizeError::CostOutOfRange));
}

/// A 64 by 64 image whose right half is bright: within the central crop the
/// right-hand grid cells are brighter than the average cell, the left-hand
/// ones darker, and the hash says exactly that, row by row.
#[test]
fn frame_hash_marks_bright_cells() {
    let width = 64usize;
    let height = 64usize;
    let mut pixels = vec![0u8; width * height];
    for y in 0..height {
        for x in width / 2..width {
            pixels[y * width + x] = 200;
        }
    }
    let hash = frame_hash(&pixels, width, height).unwrap();
    assert_eq!(hash.bits.len(), 256);
    for r in 0..16 {
        for c in 0..16 {
            let expected = c >= 8; // cells over the bright right half
            assert_eq!(hash.bits[r * 16 + c], expected, "cell ({}, {})", r, c);
        }
    }
}

/// A uniform image has no cell strictly brighter than the average: every
/// bit is clear, and two such hashes are identical.
#[test]
fn frame_hash_uniform_image_is_all_clear() {
    let pixels = vec![77u8; 64 * 48];
    let hash = frame_hash(&pixels, 64, 48).unwrap();
    assert!(hash.bits.iter().all(|b| !b));
    let again = frame_hash(&pixels, 64, 48).unwrap();
    assert_eq!(hamming_distance(&hash, &again), 0);
}

#[test]
fn frame_hash_rejects_small_image() {
    let pixels = vec![0u8; 31 * 40];
    assert!(matches!(
        frame_hash(&pixels, 31, 40),
        Err(HashError::ImageTooSmall)
    ));
}

#[test]
fn frame_hash_rejects_oversized_dimensions() {
    let pixels: Vec<u8> = Vec::new();
    assert!(matches!(
        frame_hash(&pixels, 0x10_0001, 32),
        Err(HashError::ImageTooLarge)
    ));
}

#[test]
fn frame_hash_rejects_wrong_buffer_length() {
    let pixels = vec![0u8; 64 * 64 - 1];
    assert!(matches!(
        frame_hash(&pixels, 64, 64),
        Err(HashError::SizeMismatch)
    ));
}

/// Hashing then optimizing: frames of one scene stay, in order.
#[test]
fn hashed_identical_frames_all_kept() {
    let pixels = vec![50u8; 64 * 64];
    let hashes: Vec<FrameHash> = (0..4)
        .map(|_| frame_hash(&pixels, 64, 64).unwrap())
        .collect();
    let order = optimize(&hashes, OptimizerConfig::default()).unwrap();
    assert_eq!(order, vec![0, 1, 2, 3]);
}

/// Cloned hashes compare equal bit for bit.
#[test]
fn frame_hash_clone_preserves_bits() {
    let h = hash_of(&[true, false, false, true]);
    let d = h.clone();
    assert_eq!(hamming_distance(&h, &d), 0);
    assert_eq!(d.bits, vec![true, false, false, true]);
}
