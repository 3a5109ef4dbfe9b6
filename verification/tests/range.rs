use libazo::range::{BitReader, RangeDecoder};

#[test]
fn test_bitreader_single_byte() {
    let data = [0b10110001u8];
    let mut br = BitReader::new(&data);
    assert_eq!(br.read_bit(), 1);
    assert_eq!(br.read_bit(), 0);
    assert_eq!(br.read_bit(), 1);
    assert_eq!(br.read_bit(), 1);
    assert_eq!(br.read_bit(), 0);
    assert_eq!(br.read_bit(), 0);
    assert_eq!(br.read_bit(), 0);
    assert_eq!(br.read_bit(), 1);
}

#[test]
fn test_bitreader_multi_byte() {
    let data = [0xFF, 0x00];
    let mut br = BitReader::new(&data);
    for _ in 0..8 {
        assert_eq!(br.read_bit(), 1);
    }
    for _ in 0..8 {
        assert_eq!(br.read_bit(), 0);
    }
}

#[test]
fn test_bitreader_beyond_buffer() {
    let data = [0xFF];
    let mut br = BitReader::new(&data);
    for _ in 0..8 {
        br.read_bit();
    }
    // Beyond buffer should return 0
    assert_eq!(br.read_bit(), 0);
}

#[test]
fn test_range_decoder_initialize() {
    // Initialize reads 32 bits (4 bytes) into tag
    let data = [0x12, 0x34, 0x56, 0x78, 0x00, 0x00, 0x00, 0x00];
    let mut rd = RangeDecoder::new(&data);
    rd.initialize();
    assert_eq!(rd.tag(), 0x12345678);
}

#[test]
fn test_decode_uniform_1bit() {
    let data = [0x80, 0x00, 0x00, 0x00, 0x00, 0x00, 0x00, 0x00];
    let mut rd = RangeDecoder::new(&data);
    rd.initialize();
    let val = rd.decode_uniform(1);
    assert!(val <= 1);
}

#[test]
fn bitreader_fetches_bytes_lazily() {
    let data = [0xA5, 0x0F];
    let mut br = BitReader::new(&data);
    assert!(!br.fetched_all());
    br.read_bit();
    assert!(!br.fetched_all());
    for _ in 0..7 {
        br.read_bit();
    }
    assert!(!br.fetched_all());
    br.read_bit();
    assert!(br.fetched_all());
    let empty: [u8; 0] = [];
    assert!(BitReader::new(&empty).fetched_all());
}

#[test]
fn uniform_decodes_top_bit() {
    // With the full interval, a 1-bit uniform symbol is the tag's top bit.
    let data = [0x80, 0x00, 0x00, 0x00, 0x00, 0x00, 0x00, 0x00];
    let mut rd = RangeDecoder::new(&data);
    rd.initialize();
    assert_eq!(rd.decode_uniform(1), 1);
    let data = [0x7F, 0xFF, 0xFF, 0xFF, 0x00, 0x00, 0x00, 0x00];
    let mut rd = RangeDecoder::new(&data);
    rd.initialize();
    assert_eq!(rd.decode_uniform(1), 0);
    // A 4-bit symbol is the tag's top nibble.
    let data = [0xB0, 0x00, 0x00, 0x00, 0x00];
    let mut rd = RangeDecoder::new(&data);
    rd.initialize();
    assert_eq!(rd.decode_uniform(4), 0xB);
}

#[test]
fn boolean_splits_at_cum_count() {
    // Half the scale is zero: a tag in the upper half decodes 1.
    let data = [0xC0, 0x00, 0x00, 0x00, 0x00];
    let mut rd = RangeDecoder::new(&data);
    rd.initialize();
    assert_eq!(rd.decode_boolean(2048, 12), 1);
    let data = [0x10, 0x00, 0x00, 0x00, 0x00];
    let mut rd = RangeDecoder::new(&data);
    rd.initialize();
    assert_eq!(rd.decode_boolean(2048, 12), 0);
}

#[test]
fn consumed_after_initialize() {
    let data = [0x01, 0x02, 0x03, 0x04];
    let mut rd = RangeDecoder::new(&data);
    assert!(!rd.fully_consumed());
    rd.initialize();
    assert!(rd.fully_consumed());
    let data = [0x01, 0x02, 0x03, 0x04, 0x05];
    let mut rd = RangeDecoder::new(&data);
    rd.initialize();
    assert!(!rd.fully_consumed());
}

#[test]
fn uniform_on_wide_scales() {
    // Full interval, code value 2^31: on a 31-bit scale the step is 2, on a
    // 32-bit scale it is 1.
    let data = [0x80, 0x00, 0x00, 0x00, 0x00, 0x00, 0x00, 0x00];
    let mut rd = RangeDecoder::new(&data);
    rd.initialize();
    assert_eq!(rd.decode_uniform(31), 0x4000_0000);
    let mut rd = RangeDecoder::new(&data);
    rd.initialize();
    assert_eq!(rd.decode_uniform(32), 0x8000_0000);
    // Without the clamp the quotient would be exactly 2^32 - 1 anyway.
    let data = [0xFF, 0xFF, 0xFF, 0xFF];
    let mut rd = RangeDecoder::new(&data);
    rd.initialize();
    assert_eq!(rd.decode_uniform(32), 0xFFFF_FFFF);
}

#[test]
fn boolean_on_a_wide_scale() {
    // Full interval, 31-bit scale: the step is 2 and the quotient 2^30.
    let data = [0x80, 0x00, 0x00, 0x00, 0x00];
    let mut rd = RangeDecoder::new(&data);
    rd.initialize();
    assert_eq!(rd.decode_boolean(0x4000_0000, 31), 1);
    let mut rd = RangeDecoder::new(&data);
    rd.initialize();
    assert_eq!(rd.decode_boolean(0x4000_0001, 31), 0);
}

#[test]
fn consumed_stays_consumed() {
    let data = [0x12, 0x34, 0x56];
    let mut rd = RangeDecoder::new(&data);
    rd.initialize();
    assert!(rd.fully_consumed());
    for _ in 0..20 {
        rd.decode_boolean(2048, 12);
        assert!(rd.fully_consumed());
        rd.decode_uniform(5);
        assert!(rd.fully_consumed());
    }
}
