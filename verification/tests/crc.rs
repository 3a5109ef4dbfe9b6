use libazo::crc::Crc32;

#[test]
fn standard_check_vector() {
    // The canonical CRC-32 check value for "123456789".
    let mut c = Crc32::new();
    c.update(b"123456789");
    assert_eq!(c.finalize(), 0xCBF4_3926);
}

#[test]
fn chunked_matches_oneshot() {
    let data = b"Hello, AZO!";
    let mut one = Crc32::new();
    one.update(data);
    let mut split = Crc32::new();
    split.update(&data[..4]);
    split.update(&data[4..]);
    assert_eq!(one.finalize(), split.finalize());
}

#[test]
fn crc_of_nothing_is_zero() {
    let c = Crc32::new();
    assert_eq!(c.finalize(), 0);
}

#[test]
fn crc_of_hello_azo() {
    let mut c = Crc32::new();
    c.update(b"Hello, AZO!");
    assert_eq!(c.finalize(), 0xB88B_40D9);
}

#[test]
fn crc_three_chunks_match_oneshot() {
    let data = b"Secret AZO data";
    let mut one = Crc32::new();
    one.update(data);
    let mut split = Crc32::new();
    split.update(&data[..3]);
    split.update(&data[3..3]);
    split.update(&data[3..9]);
    split.update(&data[9..]);
    let a = one.finalize();
    assert_eq!(a, split.finalize());
    assert_eq!(a, 0xB63B_9760);
}
