use semco_core::block::Block;
use semco_core::consensus::pow::{adjust_difficulty, Difficulty, Miner, Target};
use semco_core::encoding::encode_pow;
use semco_core::error::Error;
use std::time::{SystemTime, UNIX_EPOCH};

fn unhex<const N: usize>(text: &str) -> [u8; N] {
    assert_eq!(text.len(), 2 * N);
    let mut out = [0u8; N];
    for i in 0..N {
        out[i] = u8::from_str_radix(&text[2 * i..2 * i + 2], 16).unwrap();
    }
    out
}

/// The target whose first byte is zero and whose other bytes are 0xff.
fn easy_target() -> Target {
    let mut bytes = [0xff; 32];
    bytes[0] = 0x00;
    Target(bytes)
}

fn number(value: u64) -> Target {
    let mut bytes = [0u8; 32];
    bytes[24..].copy_from_slice(&value.to_be_bytes());
    Target(bytes)
}

fn genesis() -> Block {
    Block::new(
        [0; 32],
        [0; 32],
        SystemTime::now().duration_since(UNIX_EPOCH).unwrap().as_secs(),
        vec![],
    )
}

#[test]
fn test_mining() {
    let target = easy_target();
    let miner = Miner::new(target);

    let mut block = genesis();

    let result = miner.mine(&mut block, 1_000_000).unwrap();
    assert!(miner.check_hash(&result.hash));
}

#[test]
fn test_difficulty_adjustment() {
    let initial_target = easy_target();

    // Blocks came in half the expected time: the difficulty goes up.
    let new_target = adjust_difficulty(initial_target, 5, 10).unwrap();
    assert!(new_target.to_difficulty() > initial_target.to_difficulty());

    // Blocks came in twice the expected time: the difficulty goes down.
    let new_target = adjust_difficulty(initial_target, 20, 10).unwrap();
    assert!(new_target.to_difficulty() < initial_target.to_difficulty());
}

#[test]
fn mined_hash_starts_with_a_zero_byte() {
    let miner = Miner::new(easy_target());
    let mut block = genesis();
    let result = miner.mine(&mut block, 1_000_000).unwrap();
    assert_eq!(result.hash[0], 0x00);
    assert_eq!(block.header.nonce, result.nonce);
    assert_eq!(miner.calculate_hash(&block), result.hash);
}

#[test]
fn genesis_block_validates_and_mines_at_once() {
    let mut block = genesis();
    block.header.target = [0xff; 32];
    let now = SystemTime::now().duration_since(UNIX_EPOCH).unwrap().as_secs();
    assert!(block.validate(now));
    let miner = Miner::new(Target([0xff; 32]));
    let result = miner.mine(&mut block, 1).unwrap();
    assert!(miner.check_hash(&result.hash));
    assert_eq!(block.header.nonce, result.nonce);
}

#[test]
fn mining_changes_only_the_nonce() {
    let mut block = genesis();
    block.header.target = [0xff; 32];
    let before = block.clone();
    let result = Miner::new(Target([0xff; 32])).mine(&mut block, 10).unwrap();
    assert_eq!(block.header.version, before.header.version);
    assert_eq!(block.header.previous_hash, before.header.previous_hash);
    assert_eq!(block.header.merkle_root, before.header.merkle_root);
    assert_eq!(block.header.timestamp, before.header.timestamp);
    assert_eq!(block.header.target, before.header.target);
    assert_eq!(block.header.nonce, result.nonce);
    assert!(block.transactions.is_empty());
    assert!(block.intent_data.is_none());
}

#[test]
fn mining_without_attempts_is_cancelled() {
    let mut block = genesis();
    block.header.nonce = 17;
    let result = Miner::new(Target([0xff; 32])).mine(&mut block, 0);
    assert_eq!(result.unwrap_err(), Error::MiningCancelled);
    assert_eq!(block.header.nonce, 17);
}

#[test]
fn impossible_target_is_cancelled_and_leaves_the_block() {
    let mut block = genesis();
    block.header.nonce = 17;
    let miner = Miner::new(Target([0x00; 32]));
    assert_eq!(miner.mine(&mut block, 50).unwrap_err(), Error::MiningCancelled);
    assert_eq!(block.header.nonce, 17);
    assert_eq!(miner.mine_from(&mut block, &vec![1, 2, 3]).unwrap_err(), Error::MiningCancelled);
    assert_eq!(block.header.nonce, 17);
    assert!(miner.try_nonce(&block, 5).is_none());
}

#[test]
fn pow_hash_is_blake3_of_four_fields() {
    let mut block = Block::new([0x11; 32], [0x22; 32], 0x0102030405060708, vec![]);
    block.header.nonce = 0x1112131415161718;
    let mut preimage = Vec::new();
    preimage.extend_from_slice(&[0x11; 32]);
    preimage.extend_from_slice(&[0x22; 32]);
    preimage.extend_from_slice(&[1, 2, 3, 4, 5, 6, 7, 8]);
    preimage.extend_from_slice(&[0x11, 0x12, 0x13, 0x14, 0x15, 0x16, 0x17, 0x18]);
    assert_eq!(encode_pow(&block.header, block.header.nonce), preimage);
    let miner = Miner::new(easy_target());
    assert_eq!(miner.calculate_hash(&block), *blake3::hash(&preimage).as_bytes());
}

#[test]
fn pow_hash_ignores_version_and_target() {
    let miner = Miner::new(easy_target());
    let block = Block::new([1; 32], [2; 32], 5, vec![]);
    let mut other = block.clone();
    other.header.version = 9;
    other.header.target = [0x55; 32];
    assert_eq!(miner.calculate_hash(&block), miner.calculate_hash(&other));
    assert_ne!(block.calculate_hash(), other.calculate_hash());
    assert_ne!(miner.calculate_hash(&block), block.calculate_hash());
    other.header.nonce = 1;
    assert_ne!(miner.calculate_hash(&block), miner.calculate_hash(&other));
}

#[test]
fn try_nonce_agrees_with_hash_and_check() {
    let miner = Miner::new(Target([0x7f; 32]));
    let block = Block::new([1; 32], [2; 32], 5, vec![]);
    for nonce in 0..64u64 {
        let mut probe = block.clone();
        probe.header.nonce = nonce;
        let hash = miner.calculate_hash(&probe);
        match miner.try_nonce(&block, nonce) {
            Some(found) => {
                assert!(miner.check_hash(&hash));
                assert_eq!(found.nonce, nonce);
                assert_eq!(found.hash, hash);
            }
            None => assert!(!miner.check_hash(&hash)),
        }
    }
    assert_eq!(block.header.nonce, 0);
}

#[test]
fn mine_from_takes_the_first_candidate_that_solves() {
    let miner = Miner::new(Target([0x7f; 32]));
    let mut block = Block::new([1; 32], [2; 32], 5, vec![]);
    let candidates: Vec<u64> = (100..400).collect();
    let first = candidates
        .iter()
        .copied()
        .find(|n| miner.try_nonce(&block, *n).is_some())
        .unwrap();
    let result = miner.mine_from(&mut block, &candidates).unwrap();
    assert_eq!(result.nonce, first);
    assert_eq!(block.header.nonce, first);
    assert_eq!(miner.calculate_hash(&block), result.hash);
}

#[test]
fn check_hash_compares_from_the_most_significant_byte() {
    let mut target = [0x10; 32];
    target[0] = 0x20;
    let miner = Miner::new(Target(target));
    assert_eq!(miner.target(), Target(target));

    assert!(miner.check_hash(&target));

    let mut hash = target;
    hash[31] = 0x11;
    assert!(!miner.check_hash(&hash));
    hash[31] = 0x0f;
    assert!(miner.check_hash(&hash));

    let mut hash = [0xff; 32];
    hash[0] = 0x1f;
    assert!(miner.check_hash(&hash));
    let mut hash = [0x00; 32];
    hash[0] = 0x21;
    assert!(!miner.check_hash(&hash));

    let mut hash = target;
    hash[5] = 0x11;
    hash[6] = 0x00;
    assert!(!miner.check_hash(&hash));
    hash[5] = 0x0f;
    hash[6] = 0xff;
    assert!(miner.check_hash(&hash));
}

#[test]
fn every_hash_meets_the_largest_target() {
    let miner = Miner::new(Target([0xff; 32]));
    assert!(miner.check_hash(&[0xff; 32]));
    assert!(miner.check_hash(&[0x00; 32]));
    assert!(miner.check_hash(&[0x5a; 32]));
}

#[test]
fn only_the_zero_hash_meets_the_zero_target() {
    let miner = Miner::new(Target([0x00; 32]));
    assert!(miner.check_hash(&[0x00; 32]));
    let mut hash = [0x00; 32];
    hash[31] = 1;
    assert!(!miner.check_hash(&hash));
}

#[test]
fn difficulty_is_exact() {
    assert_eq!(
        easy_target().to_difficulty().unwrap(),
        Difficulty(unhex(
            "0000000000000000000000000000000000000000000000000000000000000100\
             000000000000000000000000000000000000000000000000000000000000ff00"
        ))
    );
    assert_eq!(
        Target([0xff; 32]).to_difficulty().unwrap(),
        Difficulty(unhex(
            "0000000000000000000000000000000000000000000000000000000000000001\
             0000000000000000000000000000000000000000000000000000000000000000"
        ))
    );
    assert_eq!(
        number(1).to_difficulty().unwrap(),
        Difficulty(unhex(
            "ffffffffffffffffffffffffffffffffffffffffffffffffffffffffffffffff\
             0000000000000000000000000000000000000000000000000000000000000000"
        ))
    );
    assert_eq!(
        number(3).to_difficulty().unwrap(),
        Difficulty(unhex(
            "5555555555555555555555555555555555555555555555555555555555555555\
             0000000000000000000000000000000000000000000000000000000000000000"
        ))
    );
    assert_eq!(
        Target(unhex("000000000000000000000001234567890abcdef0000000000000000000000000"))
            .to_difficulty()
            .unwrap(),
        Difficulty(unhex(
            "0000000000000000000000000000000000000000e10000007c6b900d81dd3adf\
             ca340fa9d454b0b42f2a40e4b190731c7cdce21b425baaa54ba0de479f26df44"
        ))
    );
}

#[test]
fn zero_target_has_no_difficulty() {
    assert!(Target([0; 32]).to_difficulty().is_none());
}

#[test]
fn neighbouring_targets_differ_in_difficulty() {
    let largest = Target([0xff; 32]);
    let mut bytes = [0xff; 32];
    bytes[31] = 0xfe;
    let next = Target(bytes);
    assert!(next.to_difficulty() > largest.to_difficulty());
    assert_eq!(
        next.to_difficulty().unwrap(),
        Difficulty(unhex(
            "0000000000000000000000000000000000000000000000000000000000000001\
             0000000000000000000000000000000000000000000000000000000000000001"
        ))
    );
    assert!(number(1).to_difficulty() > number(2).to_difficulty());
    assert!(number(1000).to_difficulty() > number(1001).to_difficulty());
}

#[test]
fn retarget_values_are_exact() {
    let start = easy_target();
    assert_eq!(
        adjust_difficulty(start, 5, 10).unwrap(),
        Target(unhex("007fffffffffffffffffffffffffffffffffffffffffffffffffffffffffffff"))
    );
    assert_eq!(
        adjust_difficulty(start, 20, 10).unwrap(),
        Target(unhex("01fffffffffffffffffffffffffffffffffffffffffffffffffffffffffffffe"))
    );
    let odd = Target(unhex("000000000000000000000001234567890abcdef0000000000000000000000000"));
    assert_eq!(
        adjust_difficulty(odd, 3, 7).unwrap(),
        Target(unhex("0000000000000000000000007cd49a16292c5f8b6db6db6db6db6db6db6db6db"))
    );
    assert_eq!(
        adjust_difficulty(odd, 7, 3).unwrap(),
        Target(unhex("000000000000000000000002a7a1f195190e0830000000000000000000000000"))
    );
}

#[test]
fn retarget_doubles_and_halves_the_difficulty() {
    let start = easy_target();
    assert_eq!(
        start.to_difficulty().unwrap(),
        Difficulty(unhex(
            "0000000000000000000000000000000000000000000000000000000000000100\
             000000000000000000000000000000000000000000000000000000000000ff00"
        ))
    );
    let faster = adjust_difficulty(start, 5, 10).unwrap();
    assert_eq!(
        faster.to_difficulty().unwrap(),
        Difficulty(unhex(
            "0000000000000000000000000000000000000000000000000000000000000200\
             000000000000000000000000000000000000000000000000000000000003fe00"
        ))
    );
}

#[test]
fn retarget_with_equal_intervals_keeps_the_target() {
    for target in [easy_target(), number(1), number(12345), Target([0xff; 32]), Target([0x5a; 32])] {
        assert_eq!(adjust_difficulty(target, 10, 10).unwrap(), target);
        assert_eq!(adjust_difficulty(target, 1, 1).unwrap(), target);
        assert_eq!(adjust_difficulty(target, u64::MAX, u64::MAX).unwrap(), target);
    }
}

#[test]
fn retarget_ratio_is_held_between_a_quarter_and_four() {
    let start = easy_target();
    let four_times = adjust_difficulty(start, 40, 10).unwrap();
    assert_eq!(
        four_times,
        Target(unhex("03fffffffffffffffffffffffffffffffffffffffffffffffffffffffffffffc"))
    );
    assert_eq!(adjust_difficulty(start, 100, 10).unwrap(), four_times);
    assert_eq!(adjust_difficulty(start, u64::MAX, 1).unwrap(), four_times);

    let a_quarter = adjust_difficulty(start, 10, 40).unwrap();
    assert_eq!(
        a_quarter,
        Target(unhex("003fffffffffffffffffffffffffffffffffffffffffffffffffffffffffffff"))
    );
    assert_eq!(adjust_difficulty(start, 1, 100).unwrap(), a_quarter);
    assert_eq!(adjust_difficulty(start, 0, 10).unwrap(), a_quarter);
    assert_eq!(adjust_difficulty(start, 0, u64::MAX).unwrap(), a_quarter);
}

#[test]
fn retarget_rejects_a_zero_expected_interval() {
    assert_eq!(adjust_difficulty(easy_target(), 10, 0), Err(Error::DegenerateInterval));
    assert_eq!(adjust_difficulty(easy_target(), 0, 0), Err(Error::DegenerateInterval));
    assert_eq!(adjust_difficulty(Target([0; 32]), 0, 0), Err(Error::DegenerateInterval));
}

#[test]
fn retarget_rejects_a_target_of_zero() {
    assert_eq!(adjust_difficulty(Target([0; 32]), 10, 10), Err(Error::RetargetUnderflow));
    assert_eq!(adjust_difficulty(number(1), 1, 2), Err(Error::RetargetUnderflow));
    assert_eq!(adjust_difficulty(number(2), 3, 1000), Err(Error::RetargetUnderflow));
    assert_eq!(adjust_difficulty(number(1), 1, 1).unwrap(), number(1));
    assert_eq!(adjust_difficulty(number(2), 1, 2).unwrap(), number(1));
    assert_eq!(adjust_difficulty(number(3), 1, 2).unwrap(), number(1));
    assert_eq!(adjust_difficulty(number(8), 3, 1000).unwrap(), number(2));
}

#[test]
fn retarget_stops_at_the_largest_target() {
    let largest = Target([0xff; 32]);
    assert_eq!(adjust_difficulty(largest, 2, 1).unwrap(), largest);
    assert_eq!(adjust_difficulty(largest, 100, 1).unwrap(), largest);
    assert_eq!(
        adjust_difficulty(largest, 1, 2).unwrap(),
        Target(unhex("7fffffffffffffffffffffffffffffffffffffffffffffffffffffffffffffff"))
    );
}

#[test]
fn exceeds_orders_difficulties_as_numbers() {
    let hard = number(1).to_difficulty().unwrap();
    let easy = Target([0xff; 32]).to_difficulty().unwrap();
    let middle = easy_target().to_difficulty().unwrap();
    assert!(hard.exceeds(&middle));
    assert!(middle.exceeds(&easy));
    assert!(hard.exceeds(&easy));
    assert!(!easy.exceeds(&hard));
    assert!(!middle.exceeds(&middle));
    assert!(hard > middle && middle > easy);
}

#[test]
fn faster_blocks_always_shrink_the_target() {
    for target in [number(8), number(1000), easy_target(), Target([0xff; 32]), Target([0x5a; 32])] {
        for (actual, expected) in [(10u64, 11u64), (1, 2), (u64::MAX - 1, u64::MAX), (3, 1000)] {
            let next = adjust_difficulty(target, actual, expected).unwrap();
            assert!(next.0 < target.0);
            assert!(next.to_difficulty().unwrap().exceeds(&target.to_difficulty().unwrap()));
        }
    }
}

#[test]
fn slower_blocks_never_shrink_the_target() {
    for target in [number(1), number(1000), easy_target(), Target([0xff; 32]), Target([0x5a; 32])] {
        for (actual, expected) in [(11u64, 10u64), (2, 1), (u64::MAX, u64::MAX - 1), (1000, 3)] {
            let next = adjust_difficulty(target, actual, expected).unwrap();
            assert!(next.0 >= target.0);
        }
    }
    // One and a half times the expected interval is not enough to move the target of one.
    assert_eq!(adjust_difficulty(number(1), 3, 2).unwrap(), number(1));
    assert_eq!(adjust_difficulty(number(1), 2, 1).unwrap(), number(2));
}

#[test]
fn longer_intervals_never_give_smaller_targets() {
    let intervals = [0u64, 1, 2, 3, 5, 9, 10, 11, 20, 39, 40, 41, 1000, u64::MAX];
    for target in [number(1000), easy_target(), Target([0x5a; 32]), Target([0xff; 32])] {
        let mut previous = [0u8; 32];
        for actual in intervals {
            let next = adjust_difficulty(target, actual, 10).unwrap();
            assert!(next.0 >= previous);
            previous = next.0;
        }
    }
}
