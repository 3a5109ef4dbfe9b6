use libazo::{extract_azo, next_block, open_stream, AzoError, AzoFailure};

fn run(stream: &[u8]) -> Result<u32, AzoError> {
    let mut out = Vec::new();
    extract_azo(stream, &mut out, stream.len() as u64, None)
}

/// Build a valid stream header plus one block header with the given sizes.
fn block_stream(block_size: u32, compress_size: u32, data: &[u8]) -> Vec<u8> {
    let mut s = vec![0x31, 0x00];
    s.extend_from_slice(&block_size.to_be_bytes());
    s.extend_from_slice(&compress_size.to_be_bytes());
    s.extend_from_slice(&(block_size ^ compress_size).to_be_bytes());
    s.extend_from_slice(data);
    s
}

#[test]
fn rejects_oversized_block() {
    let mut s = vec![0x31, 0x00];
    s.extend_from_slice(&0xFFFF_FFFFu32.to_be_bytes());
    s.extend_from_slice(&1u32.to_be_bytes());
    s.extend_from_slice(&0xFFFF_FFFEu32.to_be_bytes());
    s.push(0x00);
    assert!(matches!(run(&s), Err(AzoError::Failed(_))));
}

#[test]
fn rejects_zero_block_size() {
    let s = block_stream(0, 1, &[0x00]);
    assert!(matches!(run(&s), Err(AzoError::Failed(_))));
}

#[test]
fn rejects_zero_compress_size() {
    let s = block_stream(256, 0, &[]);
    assert!(matches!(run(&s), Err(AzoError::Failed(_))));
}

#[test]
fn enforces_max_output() {
    let s = block_stream(256, 4, &[0x00; 4]);
    let mut out = Vec::new();
    let r = extract_azo(&s, &mut out, s.len() as u64, Some(100));
    assert!(matches!(r, Err(AzoError::Failed(_))));
}

#[test]
fn rejects_truncated_stream() {
    let mut out = Vec::new();
    let data = [0x31u8, 0x00];
    let r = extract_azo(&data[..], &mut out, 100, None);
    assert!(matches!(r, Err(AzoError::Failed(_))));
}

#[test]
fn failures_name_their_reason() {
    let s = block_stream(0, 1, &[0x00]);
    assert_eq!(run(&s), Err(AzoError::Failed(AzoFailure::ZeroBlockSize)));
    let s = block_stream(256, 0, &[]);
    assert_eq!(run(&s), Err(AzoError::Failed(AzoFailure::ZeroCompressedSize)));
    let mut s = vec![0x31, 0x00];
    s.extend_from_slice(&0xFFFF_FFFFu32.to_be_bytes());
    s.extend_from_slice(&1u32.to_be_bytes());
    s.extend_from_slice(&0xFFFF_FFFEu32.to_be_bytes());
    s.push(0x00);
    assert_eq!(
        run(&s),
        Err(AzoError::Failed(AzoFailure::BlockTooLarge(0xFFFF_FFFF)))
    );
    let s = block_stream(256, 4, &[0x00; 4]);
    let mut out = Vec::new();
    assert_eq!(
        extract_azo(&s, &mut out, s.len() as u64, Some(100)),
        Err(AzoError::Failed(AzoFailure::OutputExceedsMax))
    );
    let mut out = Vec::new();
    assert_eq!(
        extract_azo(&[0x31u8, 0x00][..], &mut out, 100, None),
        Err(AzoError::Failed(AzoFailure::TruncatedStream))
    );
}

#[test]
fn max_output_counts_all_blocks() {
    // Two stored blocks of 3 bytes each: 6 in all.
    let mut s = block_stream(3, 3, b"abc");
    s.extend_from_slice(&3u32.to_be_bytes());
    s.extend_from_slice(&3u32.to_be_bytes());
    s.extend_from_slice(&0u32.to_be_bytes());
    s.extend_from_slice(b"def");
    s.extend_from_slice(&[0u8; 12]);
    let mut out = Vec::new();
    assert_eq!(
        extract_azo(&s, &mut out, s.len() as u64, Some(5)),
        Err(AzoError::Failed(AzoFailure::OutputExceedsMax))
    );
    // The first block was written before the second was refused.
    assert_eq!(out, b"abc".to_vec());
    let mut out = Vec::new();
    let crc = extract_azo(&s, &mut out, s.len() as u64, Some(6)).unwrap();
    assert_eq!(out, b"abcdef".to_vec());
    let mut c = libazo::crc::Crc32::new();
    c.update(b"abcdef");
    assert_eq!(crc, c.finalize());
}

#[test]
fn writer_keeps_earlier_contents() {
    let mut s = block_stream(3, 3, b"xyz");
    s.extend_from_slice(&[0u8; 12]);
    let mut out = b"<<".to_vec();
    extract_azo(&s, &mut out, s.len() as u64, None).unwrap();
    assert_eq!(out, b"<<xyz".to_vec());
}

#[test]
fn only_compressed_size_bytes_are_read() {
    // Bytes after the declared size are not part of the stream.
    let mut s = block_stream(3, 3, b"xyz");
    s.extend_from_slice(&[0u8; 12]);
    let n = s.len() as u64;
    s.extend_from_slice(b"trailing");
    let mut out = Vec::new();
    assert!(extract_azo(&s, &mut out, n, None).is_ok());
    assert_eq!(out, b"xyz".to_vec());
}

#[test]
fn stored_block_with_x86_filter() {
    let content = [0x90u8, 0xE8, 0x0A, 0x00, 0x00, 0x00];
    let mut s = vec![0x31, 0x01];
    s.extend_from_slice(&6u32.to_be_bytes());
    s.extend_from_slice(&6u32.to_be_bytes());
    s.extend_from_slice(&0u32.to_be_bytes());
    s.extend_from_slice(&content);
    s.extend_from_slice(&[0u8; 12]);
    let mut out = Vec::new();
    extract_azo(&s, &mut out, s.len() as u64, None).unwrap();
    assert_eq!(out, vec![0x90, 0xE8, 0x09, 0x00, 0x00, 0x00]);
}

#[test]
fn missing_terminal_block_is_truncated_header() {
    let s = block_stream(3, 3, b"xyz");
    let mut out = Vec::new();
    assert_eq!(
        extract_azo(&s, &mut out, s.len() as u64, None),
        Err(AzoError::Failed(AzoFailure::TruncatedBlockHeader))
    );
    assert_eq!(out, b"xyz".to_vec());
}

#[test]
fn messages_match_reasons() {
    assert_eq!(
        AzoError::Failed(AzoFailure::UnsupportedVersion(50)).message(),
        "AZO error: unsupported AZO version: 50"
    );
    assert_eq!(
        AzoError::Failed(AzoFailure::BlockTooLarge(4294967295)).message(),
        "AZO error: block size 4294967295 exceeds limit"
    );
    assert_eq!(
        AzoError::Failed(AzoFailure::InvalidMatch { distance: 0, pos: 12 }).message(),
        "AZO error: invalid match: distance=0, pos=12"
    );
    assert_eq!(
        AzoError::Failed(AzoFailure::TrailingBytes).message(),
        "AZO error: trailing bytes in compressed block"
    );
    assert_eq!(AzoFailure::DataTooShort.text(), "data too short");
}

#[test]
fn stream_header_verdicts() {
    assert_eq!(open_stream(&[0x31, 0x00], 3), Err(AzoError::Failed(AzoFailure::TruncatedStream)));
    assert_eq!(open_stream(&[0x31], 1), Err(AzoError::Failed(AzoFailure::DataTooShort)));
    assert_eq!(
        open_stream(&[0x30, 0x00], 2),
        Err(AzoError::Failed(AzoFailure::UnsupportedVersion(0x30)))
    );
    assert_eq!(open_stream(&[0x31, 0x00], 2), Ok(false));
    assert_eq!(open_stream(&[0x31, 0x03, 0xFF], 2), Ok(true));
}

#[test]
fn blocks_one_at_a_time() {
    // One stored block of three bytes, then the terminal block.
    let mut s = block_stream(3, 3, &[7, 8, 9]);
    s.extend_from_slice(&[0u8; 12]);
    let (out, next, total) = next_block(&s, 2, false, Some(10), 0).unwrap().unwrap();
    assert_eq!(out, vec![7, 8, 9]);
    assert_eq!(next, 17);
    assert_eq!(total, 3);
    assert_eq!(next_block(&s, next, false, Some(10), total), Ok(None));
    // The same stream at once.
    let mut whole = Vec::new();
    let crc = extract_azo(&s, &mut whole, s.len() as u64, Some(10)).unwrap();
    assert_eq!(whole, vec![7, 8, 9]);
    let mut h = libazo::crc::Crc32::new();
    h.update(&out);
    assert_eq!(crc, h.finalize());
    // A limit that the block passes is refused before decoding.
    assert_eq!(
        next_block(&s, 2, false, Some(2), 0),
        Err(AzoError::Failed(AzoFailure::OutputExceedsMax))
    );
}
