use libazo::crc::Crc32;
use libazo::{decompress_block, extract_azo, AzoError, AzoFailure};

fn crc_of(data: &[u8]) -> u32 {
    let mut c = Crc32::new();
    c.update(data);
    c.finalize()
}

fn compressed_stream(block_size: u32, data: &[u8]) -> Vec<u8> {
    let compress_size = data.len() as u32;
    let mut s = vec![0x31, 0x00];
    s.extend_from_slice(&block_size.to_be_bytes());
    s.extend_from_slice(&compress_size.to_be_bytes());
    s.extend_from_slice(&(block_size ^ compress_size).to_be_bytes());
    s.extend_from_slice(data);
    s.extend_from_slice(&[0u8; 12]);
    s
}

#[test]
fn zero_input_decodes_zero_bytes() {
    assert_eq!(decompress_block(&[], 10), Ok(vec![0u8; 10]));
    assert_eq!(decompress_block(&[0, 0, 0, 0], 1), Ok(vec![0u8]));
}

#[test]
fn block_output_has_block_size_bytes() {
    for n in [1usize, 2, 7, 100] {
        let out = decompress_block(&[0u8], n).unwrap();
        assert_eq!(out.len(), n);
    }
}

#[test]
fn compressed_block_through_extract() {
    let s = compressed_stream(5, &[0x00]);
    let mut out = Vec::new();
    let crc = extract_azo(&s, &mut out, s.len() as u64, None).unwrap();
    assert_eq!(out, vec![0u8; 5]);
    assert_eq!(crc, crc_of(&[0u8; 5]));
}

#[test]
fn rejects_unread_block_bytes() {
    // Four zero literals cannot use up 64 bytes of input.
    let s = compressed_stream(4, &[0u8; 64]);
    let mut out = Vec::new();
    assert_eq!(
        extract_azo(&s, &mut out, s.len() as u64, None),
        Err(AzoError::Failed(AzoFailure::TrailingBytes))
    );
    assert!(out.is_empty());
    assert_eq!(
        decompress_block(&[0u8; 64], 4),
        Err(AzoError::Failed(AzoFailure::TrailingBytes))
    );
}

#[test]
fn lookahead_within_four_bytes_is_consumed() {
    // The code value reads four bytes ahead; a block no longer than that
    // counts as fully consumed.
    assert!(decompress_block(&[0u8; 4], 3).is_ok());
}

#[test]
fn terminal_only_stream_has_crc_zero() {
    for flags in [0x00u8, 0x01] {
        let mut s = vec![0x31, flags];
        s.extend_from_slice(&[0u8; 12]);
        let mut out = Vec::new();
        assert_eq!(extract_azo(&s, &mut out, s.len() as u64, None), Ok(0));
        assert!(out.is_empty());
    }
}

#[test]
fn short_input_writes_nothing() {
    let mut s = vec![0x31, 0x00, 0, 0, 0, 3, 0, 0, 0, 3, 0, 0, 0, 0];
    s.extend_from_slice(b"abc");
    let mut out = Vec::new();
    assert_eq!(
        extract_azo(&s, &mut out, s.len() as u64 + 1, None),
        Err(AzoError::Failed(AzoFailure::TruncatedStream))
    );
    assert!(out.is_empty());
}
