use clickhouse_arrow::error::Error;
use clickhouse_arrow::frame::{
    compress_data, compress_data_pooled, compress_data_sync, decompress_data, CompressionMethod,
    DecompressionReader,
};
use clickhouse_arrow::pool::PooledBuffer;
use clickhouse_arrow::primitives::ByteReader;

fn encode(data: &[u8], method: CompressionMethod) -> Vec<u8> {
    let mut buffer = Vec::new();
    compress_data(&mut buffer, data.to_vec(), method).unwrap();
    buffer
}

fn decode(bytes: Vec<u8>, method: CompressionMethod) -> Result<Vec<u8>, Error> {
    let mut reader = ByteReader::new(bytes);
    decompress_data(&mut reader, method)
}

#[test]
fn test_write_compressed_data_lz4() {
    let data = b"test data for compression".to_vec();
    let buffer = encode(&data, CompressionMethod::LZ4);
    assert!(!buffer.is_empty());
    assert!(buffer.len() >= 25);
    let decompressed = decode(buffer, CompressionMethod::LZ4).unwrap();
    assert_eq!(decompressed, data);
}

#[test]
fn test_write_compressed_data_zstd() {
    let data = b"test data for ZSTD compression".to_vec();
    let buffer = encode(&data, CompressionMethod::ZSTD);
    assert!(!buffer.is_empty());
    assert!(buffer.len() >= 25);
    let decompressed = decode(buffer, CompressionMethod::ZSTD).unwrap();
    assert_eq!(decompressed, data);
}

#[test]
fn test_write_compressed_data_none() {
    let data = b"test data no compression".to_vec();
    let mut buffer = Vec::new();
    compress_data(&mut buffer, data.clone(), CompressionMethod::Uncompressed).unwrap();
    assert!(buffer.is_empty());
    let decompressed = decode(buffer, CompressionMethod::Uncompressed);
    assert!(decompressed.is_err());
}

#[test]
fn test_decompress_data_lz4() {
    let data = b"test data for LZ4 decompression".to_vec();
    let buffer = encode(&data, CompressionMethod::LZ4);
    let decompressed = decode(buffer, CompressionMethod::LZ4).unwrap();
    assert_eq!(decompressed, data);
}

#[test]
fn test_decompress_data_zstd() {
    let data = b"test data for ZSTD decompression".to_vec();
    let buffer = encode(&data, CompressionMethod::ZSTD);
    let decompressed = decode(buffer, CompressionMethod::ZSTD).unwrap();
    assert_eq!(decompressed, data);
}

#[test]
fn test_decompression_reader_single_chunk() {
    let data = b"test data for single chunk reading".to_vec();
    let expected_len = data.len();
    let buffer = encode(&data, CompressionMethod::LZ4);
    let mut reader = DecompressionReader::new(CompressionMethod::LZ4, ByteReader::new(buffer)).unwrap();
    let mut result = Vec::new();
    while result.len() < expected_len {
        let want = expected_len - result.len();
        let n = reader.read(&mut result, want).unwrap();
        assert!(n > 0);
    }
    assert_eq!(result, data);
}

#[test]
fn test_round_trip_compression() {
    let original_data = b"This is a longer piece of test data that should compress well with both LZ4 and ZSTD algorithms".to_vec();
    for compression in [CompressionMethod::LZ4, CompressionMethod::ZSTD] {
        let buffer = encode(&original_data, compression);
        let decompressed = decode(buffer, compression).unwrap();
        assert_eq!(decompressed, original_data, "Round trip failed for {compression:?}");
    }
}

#[test]
fn test_checksum_validation() {
    let data = b"test data for checksum validation".to_vec();
    let mut buffer = encode(&data, CompressionMethod::LZ4);
    buffer[0] ^= 0xFF;
    let result = decode(buffer, CompressionMethod::LZ4);
    assert!(result.is_err());
    assert!(result.unwrap_err().to_string().contains("Checksum mismatch"));
}

#[test]
fn lz4_frame_scenario() {
    let data = b"test data for compression".to_vec();
    let buffer = encode(&data, CompressionMethod::LZ4);
    assert!(buffer.len() >= 25);
    assert_eq!(buffer[16], 0x82);
    let compressed_size = u32::from_le_bytes([buffer[17], buffer[18], buffer[19], buffer[20]]) as usize;
    assert_eq!(compressed_size + 16, buffer.len());
    let decompressed_size = u32::from_le_bytes([buffer[21], buffer[22], buffer[23], buffer[24]]);
    assert_eq!(decompressed_size as usize, data.len());
    // the stored checksum is CityHash-128 over method, sizes and payload
    let hash = cityhash_rs::cityhash_102_128(&buffer[16..]);
    let high = u64::from_le_bytes(buffer[0..8].try_into().unwrap());
    let low = u64::from_le_bytes(buffer[8..16].try_into().unwrap());
    assert_eq!((u128::from(high) << 64) | u128::from(low), hash);
    // the payload is lz4's block encoding, not the raw bytes
    assert_eq!(&buffer[25..], lz4_flex::compress(&data).as_slice());
    assert_eq!(decode(buffer.clone(), CompressionMethod::LZ4).unwrap(), data);
    let err = decode(buffer, CompressionMethod::Uncompressed).unwrap_err();
    assert!(matches!(err, Error::DeserializeError(_)));
}

#[test]
fn zstd_payload_is_level_one_frame() {
    let data = b"zstd zstd zstd zstd zstd zstd".to_vec();
    let buffer = encode(&data, CompressionMethod::ZSTD);
    assert_eq!(buffer[16], 0x90);
    assert_eq!(&buffer[25..], zstd::bulk::compress(&data, 1).unwrap().as_slice());
}

#[test]
fn checksum_bit_flips_fail() {
    let data = b"flip".to_vec();
    let buffer = encode(&data, CompressionMethod::LZ4);
    for i in 0..16 {
        for bit in 0..8 {
            let mut tampered = buffer.clone();
            tampered[i] ^= 1 << bit;
            let err = decode(tampered, CompressionMethod::LZ4).unwrap_err();
            assert!(matches!(err, Error::Protocol(_)));
        }
    }
}

#[test]
fn payload_corruption_fails() {
    let data = b"some payload that is long enough to matter".to_vec();
    let buffer = encode(&data, CompressionMethod::LZ4);
    for i in 16..buffer.len() {
        let mut tampered = buffer.clone();
        tampered[i] ^= 0x01;
        assert!(decode(tampered, CompressionMethod::LZ4).is_err());
    }
}

#[test]
fn empty_payload_round_trips() {
    for method in [CompressionMethod::LZ4, CompressionMethod::ZSTD] {
        let buffer = encode(&[], method);
        assert!(buffer.len() >= 25);
        assert_eq!(decode(buffer, method).unwrap(), Vec::<u8>::new());
    }
}

#[test]
fn wrong_method_byte_is_protocol_error() {
    let buffer = encode(b"abc", CompressionMethod::LZ4);
    let err = decode(buffer, CompressionMethod::ZSTD).unwrap_err();
    assert!(matches!(err, Error::Protocol(ref m) if m.contains("Unexpected compression algorithm")));
}

#[test]
fn truncated_frame_is_protocol_error() {
    let buffer = encode(b"abcdefgh", CompressionMethod::LZ4);
    for cut in [0, 7, 15, 16, 20, 24, buffer.len() - 1] {
        let err = decode(buffer[..cut].to_vec(), CompressionMethod::LZ4).unwrap_err();
        assert!(matches!(err, Error::Protocol(_)), "cut at {cut}");
    }
}

#[test]
fn oversized_and_undersized_frames_are_refused() {
    let mut buffer = encode(b"abc", CompressionMethod::LZ4);
    buffer[17..21].copy_from_slice(&100_000_001u32.to_le_bytes());
    let err = decode(buffer.clone(), CompressionMethod::LZ4).unwrap_err();
    assert!(matches!(err, Error::Protocol(ref m) if m.contains("Chunk size too large")));
    buffer[17..21].copy_from_slice(&8u32.to_le_bytes());
    let err = decode(buffer.clone(), CompressionMethod::LZ4).unwrap_err();
    assert!(matches!(err, Error::Protocol(_)));
    let mut buffer = encode(b"abc", CompressionMethod::LZ4);
    buffer[21..25].copy_from_slice(&1_000_000_001u32.to_le_bytes());
    let err = decode(buffer, CompressionMethod::LZ4).unwrap_err();
    assert!(matches!(err, Error::Protocol(ref m) if m.contains("Chunk size too large")));
}

#[test]
fn bad_lz4_payload_is_deserialize_error() {
    // a well-formed frame whose payload is not a valid LZ4 block
    let payload = [0xF0u8, 0x00];
    let mut body = vec![0x82];
    body.extend_from_slice(&((payload.len() + 9) as u32).to_le_bytes());
    body.extend_from_slice(&4u32.to_le_bytes());
    body.extend_from_slice(&payload);
    let hash = cityhash_rs::cityhash_102_128(&body);
    let mut frame = Vec::new();
    frame.extend_from_slice(&((hash >> 64) as u64).to_le_bytes());
    frame.extend_from_slice(&(hash as u64).to_le_bytes());
    frame.extend_from_slice(&body);
    let err = decode(frame, CompressionMethod::LZ4).unwrap_err();
    assert!(matches!(err, Error::DeserializeError(_)));
}

#[test]
fn sync_and_pooled_writers_match() {
    let data = b"same bytes three ways".to_vec();
    let a = encode(&data, CompressionMethod::LZ4);
    let mut b = Vec::new();
    compress_data_sync(&mut b, &data, CompressionMethod::LZ4).unwrap();
    let mut pooled = PooledBuffer::with_capacity(data.len());
    pooled.buffer_mut().extend_from_slice(&data);
    let mut c = Vec::new();
    compress_data_pooled(&mut c, pooled, CompressionMethod::LZ4).unwrap();
    assert_eq!(a, b);
    assert_eq!(a, c);
}

#[test]
fn decoder_stops_after_one_frame() {
    let mut stream = encode(b"first", CompressionMethod::LZ4);
    stream.extend(encode(b"second", CompressionMethod::LZ4));
    let mut reader = ByteReader::new(stream);
    assert_eq!(decompress_data(&mut reader, CompressionMethod::LZ4).unwrap(), b"first");
    assert_eq!(decompress_data(&mut reader, CompressionMethod::LZ4).unwrap(), b"second");
    assert_eq!(reader.remaining(), 0);
}

#[test]
fn streaming_reads_smaller_equal_and_larger() {
    let first = b"0123456789".to_vec();
    let second = b"abcdef".to_vec();
    let mut stream = encode(&first, CompressionMethod::LZ4);
    stream.extend(encode(&[], CompressionMethod::LZ4));
    stream.extend(encode(&second, CompressionMethod::LZ4));
    let mut reader = DecompressionReader::new(CompressionMethod::LZ4, ByteReader::new(stream)).unwrap();
    let mut out = Vec::new();
    assert_eq!(reader.read(&mut out, 0).unwrap(), 0);
    assert_eq!(reader.read(&mut out, 4).unwrap(), 4); // smaller than a frame
    assert_eq!(out, b"0123");
    assert_eq!(reader.read(&mut out, 100).unwrap(), 6); // larger: only the rest of the frame
    assert_eq!(out, b"0123456789");
    assert_eq!(reader.read(&mut out, 6).unwrap(), 6); // equal; the empty frame is skipped
    assert_eq!(out, b"0123456789abcdef");
    assert_eq!(reader.read(&mut out, 10).unwrap(), 0); // exhausted
    assert_eq!(reader.read(&mut out, 10).unwrap(), 0);
}

#[test]
fn streaming_error_on_bad_next_frame() {
    let mut stream = encode(b"ok", CompressionMethod::LZ4);
    stream.extend_from_slice(&[1, 2, 3]);
    let mut reader = DecompressionReader::new(CompressionMethod::LZ4, ByteReader::new(stream)).unwrap();
    let mut out = Vec::new();
    assert_eq!(reader.read(&mut out, 10).unwrap(), 2);
    assert!(reader.read(&mut out, 10).is_err());
    assert_eq!(out, b"ok");
}

#[test]
fn method_bytes() {
    assert_eq!(CompressionMethod::Uncompressed.byte(), 0x02);
    assert_eq!(CompressionMethod::LZ4.byte(), 0x82);
    assert_eq!(CompressionMethod::ZSTD.byte(), 0x90);
}

#[test]
fn error_messages_and_column_tags() {
    let e = Error::DeserializeError("boom".to_string()).with_column_name("c1");
    assert!(matches!(e, Error::DeserializeErrorWithColumn(ref c, ref m) if c == "c1" && m == "boom"));
    assert_eq!(e.to_string(), "deserialize error for column c1: boom");
    let p = Error::Protocol("x".to_string()).with_column_name("c1");
    assert_eq!(p.to_string(), "protocol error: x");
    assert_eq!(Error::Unimplemented("t".to_string()).to_string(), "Unimplemented: t");
}

#[test]
fn checksum_mismatch_reports_both_values_in_hex() {
    let mut buffer = encode(b"hex", CompressionMethod::LZ4);
    buffer[15] ^= 0x01;
    let stored = (u128::from(u64::from_le_bytes(buffer[0..8].try_into().unwrap())) << 64)
        | u128::from(u64::from_le_bytes(buffer[8..16].try_into().unwrap()));
    let computed = cityhash_rs::cityhash_102_128(&buffer[16..]);
    match decode(buffer, CompressionMethod::LZ4).unwrap_err() {
        Error::Protocol(m) => {
            assert_eq!(m, format!("Checksum mismatch: expected {stored:032x}, got {computed:032x}"));
        },
        other => panic!("unexpected error {other:?}"),
    }
}

#[test]
fn declared_size_must_match_decoded_size() {
    // a valid LZ4 block of 3 bytes declared as 5
    let payload = lz4_flex::compress(b"abc");
    let mut body = vec![0x82];
    body.extend_from_slice(&((payload.len() + 9) as u32).to_le_bytes());
    body.extend_from_slice(&5u32.to_le_bytes());
    body.extend_from_slice(&payload);
    let hash = cityhash_rs::cityhash_102_128(&body);
    let mut frame = Vec::new();
    frame.extend_from_slice(&((hash >> 64) as u64).to_le_bytes());
    frame.extend_from_slice(&(hash as u64).to_le_bytes());
    frame.extend_from_slice(&body);
    let err = decode(frame, CompressionMethod::LZ4).unwrap_err();
    assert!(matches!(err, Error::DeserializeError(_)));
}

#[test]
fn reader_stops_where_the_error_is_found() {
    let mut buffer = encode(b"abc", CompressionMethod::LZ4);
    buffer[16] = 0x90;
    let len = buffer.len();
    let mut reader = ByteReader::new(buffer);
    assert!(decompress_data(&mut reader, CompressionMethod::LZ4).is_err());
    assert_eq!(reader.remaining(), len - 25);
}
