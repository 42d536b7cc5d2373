use clickhouse_arrow::primitives::{
    decode_varint, encode_varint, encode_varints_batch, swap_bytes_u16_slice, swap_bytes_u32_slice,
    swap_bytes_u64_slice, swap_uuid_halves, uuid_slice_to_clickhouse, uuid_to_clickhouse, ByteReader,
    MAX_VARINT_LEN,
};

#[test]
fn test_varint_encode_decode_small() {
    let mut buf = [0u8; MAX_VARINT_LEN];
    for value in 0u64..128 {
        let len = encode_varint(value, &mut buf);
        assert_eq!(len, 1);
        let (decoded, consumed) = decode_varint(&buf[..len]).unwrap();
        assert_eq!(decoded, value);
        assert_eq!(consumed, 1);
    }
}

#[test]
fn test_varint_encode_decode_large() {
    let mut buf = [0u8; MAX_VARINT_LEN];
    let test_values =
        [128u64, 256, 1000, 16383, 16384, u64::from(u32::MAX), u64::MAX / 2, u64::MAX];
    for &value in &test_values {
        let len = encode_varint(value, &mut buf);
        let (decoded, consumed) = decode_varint(&buf[..len]).unwrap();
        assert_eq!(decoded, value, "Failed for value {value}");
        assert_eq!(consumed, len);
    }
}

#[test]
fn varint_literal_bytes() {
    let mut buf = [0u8; MAX_VARINT_LEN];
    let len = encode_varint(127, &mut buf);
    assert_eq!(&buf[..len], &[0x7F]);
    let len = encode_varint(128, &mut buf);
    assert_eq!(&buf[..len], &[0x80, 0x01]);
    assert_eq!(decode_varint(&[0x80, 0x01]), Some((128, 2)));
}

#[test]
fn varint_max_is_ten_bytes() {
    let mut buf = [0u8; MAX_VARINT_LEN];
    let len = encode_varint(u64::MAX, &mut buf);
    assert_eq!(len, 10);
    assert_eq!(buf[9], 0x01);
}

#[test]
fn varint_decode_rejects_truncated_and_overlong() {
    assert_eq!(decode_varint(&[]), None);
    assert_eq!(decode_varint(&[0x80, 0x80]), None);
    assert_eq!(decode_varint(&[0xFF; 11]), None);
    // trailing bytes after the end are not consumed
    assert_eq!(decode_varint(&[0x05, 0x80]), Some((5, 1)));
}

#[test]
fn varint_batch_concatenates() {
    let mut out = vec![0xAA];
    encode_varints_batch(&[1, 300, 0], &mut out);
    assert_eq!(out, vec![0xAA, 0x01, 0xAC, 0x02, 0x00]);
}

#[test]
fn byte_reader_reads_varints_in_order() {
    let mut reader = ByteReader::new(vec![0xAC, 0x02, 0x07]);
    assert_eq!(reader.try_get_var_uint().unwrap(), 300);
    assert_eq!(reader.try_get_var_uint().unwrap(), 7);
    assert!(reader.try_get_var_uint().is_err());
    assert_eq!(reader.remaining(), 0);
}

#[test]
fn test_byte_swap_u32() {
    let mut data = vec![0x0102_0304_u32, 0x0506_0708, 0x090A_0B0C];
    swap_bytes_u32_slice(&mut data);
    assert_eq!(data, [0x0403_0201, 0x0807_0605, 0x0C0B_0A09]);
}

#[test]
fn test_byte_swap_u64() {
    let mut data = vec![0x0102_0304_0506_0708_u64];
    swap_bytes_u64_slice(&mut data);
    assert_eq!(data, [0x0807_0605_0403_0201]);
}

#[test]
fn byte_swap_u16() {
    let mut data = vec![0x0102_u16, 0xFF00];
    swap_bytes_u16_slice(&mut data);
    assert_eq!(data, [0x0201, 0x00FF]);
}

#[test]
fn byte_swaps_match_std() {
    let mut data = vec![0xDEAD_BEEF_0123_4567_u64, 0, u64::MAX, 0x8000_0000_0000_0001];
    let expected: Vec<u64> = data.iter().map(|v| v.swap_bytes()).collect();
    swap_bytes_u64_slice(&mut data);
    assert_eq!(data, expected);
}

#[test]
fn test_uuid_swap_halves() {
    let mut uuid = [0, 1, 2, 3, 4, 5, 6, 7, 8, 9, 10, 11, 12, 13, 14, 15];
    swap_uuid_halves(&mut uuid);
    assert_eq!(uuid, [8, 9, 10, 11, 12, 13, 14, 15, 0, 1, 2, 3, 4, 5, 6, 7]);
}

#[test]
fn test_uuid_to_clickhouse() {
    let uuid = [0, 1, 2, 3, 4, 5, 6, 7, 8, 9, 10, 11, 12, 13, 14, 15];
    let result = uuid_to_clickhouse(&uuid);
    assert_eq!(result, [8, 9, 10, 11, 12, 13, 14, 15, 0, 1, 2, 3, 4, 5, 6, 7]);
}

#[test]
fn test_uuid_slice_to_clickhouse() {
    let uuid: &[u8] = &[0, 1, 2, 3, 4, 5, 6, 7, 8, 9, 10, 11, 12, 13, 14, 15];
    let result = uuid_slice_to_clickhouse(uuid).unwrap();
    assert_eq!(result, [8, 9, 10, 11, 12, 13, 14, 15, 0, 1, 2, 3, 4, 5, 6, 7]);

    let short: &[u8] = &[0, 1, 2, 3];
    assert!(uuid_slice_to_clickhouse(short).is_none());
}
