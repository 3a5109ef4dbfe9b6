use libazo::match_code::MatchCode;
use libazo::model::{BoolState, EntropyBitProb, PredictProb};
use libazo::range::RangeDecoder;
use libazo::recent::RecentList;

#[test]
fn recent_push_drops_oldest() {
    let mut l = RecentList::new(vec![1u32, 2, 3]);
    l.push(9);
    // Now [9, 1, 2]: the 3 fell off.
    assert_eq!(l.promote(0), 9);
    assert_eq!(l.promote(2), 2);
    // Now [2, 9, 1].
    assert_eq!(l.promote(1), 9);
    assert_eq!(l.promote(2), 1);
    assert_eq!(l.promote(1), 9);
    assert_eq!(l.promote(2), 2);
}

#[test]
fn recent_promote_front_is_identity() {
    let mut l = RecentList::new(vec![4u32, 5]);
    assert_eq!(l.promote(0), 4);
    assert_eq!(l.promote(0), 4);
    assert_eq!(l.promote(1), 5);
    assert_eq!(l.promote(1), 4);
}

#[test]
fn bool_state_reads_zero_from_zeros() {
    let data: [u8; 0] = [];
    let mut rd = RangeDecoder::new(&data);
    rd.initialize();
    let mut b = BoolState::new(8);
    for _ in 0..20 {
        assert_eq!(b.decode(&mut rd), 0);
    }
    assert!(rd.fully_consumed());
}

#[test]
fn bool_state_reads_one_from_ones() {
    let data = [0xFFu8; 4];
    let mut rd = RangeDecoder::new(&data);
    rd.initialize();
    let mut b = BoolState::new(8);
    assert_eq!(b.decode(&mut rd), 1);
}

#[test]
fn tree_model_decodes_symbol_bits() {
    let data: [u8; 0] = [];
    let mut rd = RangeDecoder::new(&data);
    rd.initialize();
    let mut m = EntropyBitProb::new(256);
    assert_eq!(m.decode(&mut rd), 0);
    // The top bits of the code value give the top bits of the symbol.
    let data = [0xFFu8, 0xFF, 0xFF, 0xFF];
    let mut rd = RangeDecoder::new(&data);
    rd.initialize();
    let mut m = EntropyBitProb::new(2);
    assert_eq!(m.decode(&mut rd), 1);
}

#[test]
fn compare_prefers_adapted_model() {
    let fresh = EntropyBitProb::new(128);
    let mut adapted = EntropyBitProb::new(128);
    assert_eq!(EntropyBitProb::compare_with(&fresh, &adapted, 5), 0);
    adapted.update(5);
    adapted.update(5);
    assert_eq!(EntropyBitProb::compare_with(&adapted, &fresh, 5), 1);
    assert_eq!(EntropyBitProb::compare_with(&fresh, &adapted, 5), -1);
    // A value the adapted model learned against is predicted worse by it.
    assert_eq!(EntropyBitProb::compare_with(&adapted, &fresh, 122), -1);
}

#[test]
fn compare_with_many_updates_stays_ordered() {
    let fresh = EntropyBitProb::new(256);
    let mut adapted = EntropyBitProb::new(256);
    for _ in 0..200 {
        adapted.update(0xA5);
    }
    assert_eq!(EntropyBitProb::compare_with(&adapted, &fresh, 0xA5), 1);
}

#[test]
fn predict_model_reads_zero_from_zeros() {
    let data: [u8; 0] = [];
    let mut rd = RangeDecoder::new(&data);
    rd.initialize();
    let mut p = PredictProb::new(256, 256, 5);
    for ctx in [0usize, 17, 255] {
        assert_eq!(p.decode(&mut rd, ctx), 0);
    }
}

#[test]
fn match_code_from_zeros() {
    // All-zero input takes every first branch: no reuse, no recent
    // distance, distance code 0 (distance 1), length code 0 (length 2).
    let data: [u8; 0] = [];
    let mut rd = RangeDecoder::new(&data);
    rd.initialize();
    let mut m = MatchCode::new();
    assert_eq!(m.decode(&mut rd, 10), (1, 2));
    let mut d = MatchCode::default();
    assert_eq!(d.decode(&mut rd, 3), (1, 2));
}

#[test]
fn match_code_reuse_from_ones() {
    // All-one code value: reuse a recent match, slot 1 (id 1), whose length
    // is 3 and whose start is 0, so the distance is the position.
    let data = [0xFFu8; 4];
    let mut rd = RangeDecoder::new(&data);
    rd.initialize();
    let mut m = MatchCode::new();
    assert_eq!(m.decode(&mut rd, 7), (7, 3));
}

#[test]
fn update_with_decoded_symbol_matches_decode() {
    let data = [0x5Au8, 0xC3, 0x99, 0x10, 0x77, 0xE2, 0x01, 0xFE];
    let mut rd = RangeDecoder::new(&data);
    rd.initialize();
    let mut decoded = EntropyBitProb::new(128);
    let mut updated = EntropyBitProb::new(128);
    for _ in 0..6 {
        let v = decoded.decode(&mut rd);
        assert!(v < 128);
        updated.update(v);
        for w in [0u32, 1, 5, 64, 127, v] {
            assert_eq!(EntropyBitProb::compare_with(&decoded, &updated, w), 0);
        }
    }
}

#[test]
fn update_uses_low_bits_only() {
    let fresh = EntropyBitProb::new(16);
    let mut a = EntropyBitProb::new(16);
    let mut b = EntropyBitProb::new(16);
    a.update(0x35);
    b.update(0x05);
    for w in 0u32..16 {
        assert_eq!(EntropyBitProb::compare_with(&a, &b, w), 0);
    }
    // The update raised the odds of the walk to 5; the walk to 10 leaves
    // the root the other way, so it is predicted worse.
    assert_eq!(EntropyBitProb::compare_with(&a, &fresh, 5), 1);
    assert_eq!(EntropyBitProb::compare_with(&a, &fresh, 10), -1);
}

#[test]
fn match_lengths_stay_bounded() {
    let data = [0x3Cu8, 0xA5, 0x0F, 0xF0, 0x5A, 0xC3, 0x96, 0x69, 0x12, 0x34, 0x56, 0x78];
    let mut rd = RangeDecoder::new(&data);
    rd.initialize();
    let mut m = MatchCode::new();
    for pos in 100u32..140 {
        let (distance, length) = m.decode(&mut rd, pos);
        assert!(2 <= length && length <= 32793);
        assert!(distance <= 0x4000_000C || distance <= pos);
    }
}
