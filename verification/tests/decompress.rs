use libazo::extract_azo;

#[test]
fn test_empty_data() {
    let data: Vec<u8> = vec![];
    let mut output = Vec::new();
    let result = extract_azo(&data, &mut output, 0, None);
    assert!(result.is_err());
}

#[test]
fn test_one_byte() {
    let data = vec![0x31];
    let mut output = Vec::new();
    let result = extract_azo(&data, &mut output, 1, None);
    assert!(result.is_err());
}

#[test]
fn test_bad_version() {
    let data = vec![
        0x32, 0x00, 0x00, 0x00, 0x00, 0x00, 0x00, 0x00, 0x00, 0x00, 0x00, 0x00, 0x00, 0x00,
    ];
    let mut output = Vec::new();
    let result = extract_azo(&data, &mut output, data.len() as u64, None);
    assert!(result.is_err());
    let err = result.unwrap_err().message();
    assert!(err.contains("version"), "expected version error, got: {err}");
}

#[test]
fn test_truncated_block_header() {
    let data = vec![0x31, 0x00, 0x00, 0x00, 0x00, 0x00];
    let mut output = Vec::new();
    let result = extract_azo(&data, &mut output, data.len() as u64, None);
    assert!(result.is_err());
    let err = result.unwrap_err().message();
    assert!(err.contains("truncated"), "expected truncated error, got: {err}");
}

#[test]
fn test_terminal_block() {
    let mut data = vec![0x31, 0x00];
    data.extend_from_slice(&0u32.to_be_bytes());
    data.extend_from_slice(&0u32.to_be_bytes());
    data.extend_from_slice(&0u32.to_be_bytes());

    let mut output = Vec::new();
    let result = extract_azo(&data, &mut output, data.len() as u64, None);
    assert!(result.is_ok());
    assert!(output.is_empty());
}

#[test]
fn test_check_value_mismatch() {
    let mut data = vec![0x31, 0x00];
    data.extend_from_slice(&100u32.to_be_bytes());
    data.extend_from_slice(&50u32.to_be_bytes());
    data.extend_from_slice(&0u32.to_be_bytes());

    let mut output = Vec::new();
    let result = extract_azo(&data, &mut output, data.len() as u64, None);
    assert!(result.is_err());
    let err = result.unwrap_err().message();
    assert!(err.contains("check value"), "expected check value error, got: {err}");
}

#[test]
fn test_truncated_block_data() {
    let block_size: u32 = 100;
    let compress_size: u32 = 50;
    let check_value = block_size ^ compress_size;

    let mut data = vec![0x31, 0x00];
    data.extend_from_slice(&block_size.to_be_bytes());
    data.extend_from_slice(&compress_size.to_be_bytes());
    data.extend_from_slice(&check_value.to_be_bytes());
    data.extend_from_slice(&[0u8; 10]);

    let mut output = Vec::new();
    let result = extract_azo(&data, &mut output, data.len() as u64, None);
    assert!(result.is_err());
    let err = result.unwrap_err().message();
    assert!(err.contains("truncated"), "expected truncated error, got: {err}");
}

#[test]
fn test_stored_block() {
    let content = b"Hello, AZO!";
    let block_size = content.len() as u32;
    let compress_size = block_size;
    let check_value = block_size ^ compress_size;

    let mut data = vec![0x31, 0x00];
    data.extend_from_slice(&block_size.to_be_bytes());
    data.extend_from_slice(&compress_size.to_be_bytes());
    data.extend_from_slice(&check_value.to_be_bytes());
    data.extend_from_slice(content);
    data.extend_from_slice(&0u32.to_be_bytes());
    data.extend_from_slice(&0u32.to_be_bytes());
    data.extend_from_slice(&0u32.to_be_bytes());

    let mut output = Vec::new();
    let crc = extract_azo(&data, &mut output, data.len() as u64, None).unwrap();
    assert_eq!(&output, content);
    assert_eq!(crc, 0xB88B_40D9);
}

#[test]
fn test_decrypt_callback() {
    // XOR "encryption": the caller decrypts the stream before extracting it.
    let content = b"Secret AZO data";
    let block_size = content.len() as u32;
    let compress_size = block_size;
    let check_value = block_size ^ compress_size;

    let mut plaintext_stream = vec![0x31, 0x00];
    plaintext_stream.extend_from_slice(&block_size.to_be_bytes());
    plaintext_stream.extend_from_slice(&compress_size.to_be_bytes());
    plaintext_stream.extend_from_slice(&check_value.to_be_bytes());
    plaintext_stream.extend_from_slice(content);
    plaintext_stream.extend_from_slice(&0u32.to_be_bytes());
    plaintext_stream.extend_from_slice(&0u32.to_be_bytes());
    plaintext_stream.extend_from_slice(&0u32.to_be_bytes());

    let encrypted: Vec<u8> = plaintext_stream.iter().map(|b| b ^ 0x42).collect();

    let mut decrypt = |data: &mut [u8]| {
        for b in data.iter_mut() {
            *b ^= 0x42;
        }
    };
    let mut data = encrypted.clone();
    decrypt(&mut data[..]);

    let mut output = Vec::new();
    let crc = extract_azo(&data, &mut output, encrypted.len() as u64, None).unwrap();

    assert_eq!(&output, content);
    assert_eq!(crc, 0xB63B_9760);
}

#[test]
fn test_reader_too_short() {
    let data = vec![0u8; 10];
    let mut output = Vec::new();
    let result = extract_azo(&data, &mut output, 100, None);
    assert!(result.is_err());
}
