use clickhouse_arrow::pool::BufferPool;
use clickhouse_arrow::bitmap::{
    expand_byte_to_8, expand_null_bitmap, expand_null_bitmap_chunked, expand_null_bitmap_lanes,
    expand_null_bitmap_scalar, prepare_null_bitmap, serialize_nulls, write_nullable_vectored, ArrayNulls,
    SerializerState, Type,
};

fn array(len: usize, validity: Option<Vec<u8>>) -> ArrayNulls {
    ArrayNulls { len, validity }
}

#[test]
fn test_expand_null_bitmap_all_valid() {
    let bitmap = [0xFF, 0xFF];
    let mut output = [0xFFu8; 16];
    expand_null_bitmap(&bitmap, &mut output, 16);
    assert!(output.iter().all(|&b| b == 0), "All valid values should be 0");
}

#[test]
fn test_expand_null_bitmap_all_null() {
    let bitmap = [0x00, 0x00];
    let mut output = [0x00u8; 16];
    expand_null_bitmap(&bitmap, &mut output, 16);
    assert!(output.iter().all(|&b| b == 1), "All null values should be 1");
}

#[test]
fn test_expand_null_bitmap_mixed() {
    let bitmap = [0xAA];
    let mut output = [0xFFu8; 8];
    expand_null_bitmap(&bitmap, &mut output, 8);
    assert_eq!(output, [1, 0, 1, 0, 1, 0, 1, 0]);
}

#[test]
fn test_expand_null_bitmap_partial() {
    let bitmap = [0b0001_1111];
    let mut output = [0xFFu8; 5];
    expand_null_bitmap(&bitmap, &mut output, 5);
    assert_eq!(output, [0, 0, 0, 0, 0]);
}

#[test]
fn expand_zero_rows_writes_nothing() {
    let mut output = [7u8; 4];
    expand_null_bitmap(&[], &mut output, 0);
    assert_eq!(output, [7, 7, 7, 7]);
}

#[test]
fn expand_leaves_bytes_past_len() {
    let mut output = [9u8; 12];
    expand_null_bitmap(&[0b0000_0101, 0xFF], &mut output, 10);
    assert_eq!(output, [0, 1, 0, 1, 1, 1, 1, 1, 0, 0, 9, 9]);
}

#[test]
fn all_paths_agree() {
    let bitmap: Vec<u8> = (0..40u32).map(|i| (i.wrapping_mul(37) ^ 0x5A) as u8).collect();
    for len in [0usize, 1, 7, 8, 9, 31, 32, 33, 64, 100, 255, 320] {
        let mut a = vec![0xEEu8; 330];
        let mut b = vec![0xEEu8; 330];
        let mut c = vec![0xEEu8; 330];
        expand_null_bitmap_scalar(&bitmap, &mut a, len);
        expand_null_bitmap_chunked(&bitmap, &mut b, len);
        expand_null_bitmap_lanes(&bitmap, &mut c, len);
        assert_eq!(a, b, "chunked differs at len {len}");
        assert_eq!(a, c, "lanes differ at len {len}");
        for i in 0..len {
            let valid = (bitmap[i / 8] >> (i % 8)) & 1 == 1;
            assert_eq!(a[i], if valid { 0 } else { 1 });
        }
    }
}

#[test]
fn expand_one_byte() {
    let mut out = [5u8; 10];
    expand_byte_to_8(0b1000_0001, &mut out, 1);
    assert_eq!(out, [5, 0, 1, 1, 1, 1, 1, 1, 0, 5]);
}

#[test]
fn null_test_write_nullability_with_nulls() {
    let mut state = SerializerState::default();
    let array = array(3, Some(vec![0b101]));
    let mut writer = Vec::new();
    serialize_nulls(&Type::Int32, &mut writer, &array, &mut state);
    assert_eq!(writer, vec![0, 1, 0]);
}

#[test]
fn null_test_write_nullability_without_nulls() {
    let mut state = SerializerState::default();
    let array = array(3, None);
    let mut writer = Vec::new();
    serialize_nulls(&Type::Int32, &mut writer, &array, &mut state);
    assert_eq!(writer, vec![0, 0, 0]);
}

#[test]
fn null_test_write_nullability_empty() {
    let mut state = SerializerState::default();
    let array = array(0, None);
    let mut writer: Vec<u8> = Vec::new();
    serialize_nulls(&Type::Int32, &mut writer, &array, &mut state);
    assert!(writer.is_empty());
}

#[test]
fn null_test_write_nullability_nullable_string() {
    let mut state = SerializerState::default();
    let array = array(3, Some(vec![0b101]));
    let mut writer = Vec::new();
    serialize_nulls(&Type::String, &mut writer, &array, &mut state);
    assert_eq!(writer, vec![0, 1, 0]);
}

#[test]
fn null_test_write_nullability_nullable_array() {
    let mut state = SerializerState::default();
    // [[0, 1, 2], null, [3, null, 5], [6, 7]]
    let array = array(4, Some(vec![0b1101]));
    let mut writer: Vec<u8> = Vec::new();
    serialize_nulls(
        &Type::Nullable(Box::new(Type::Array(Box::new(Type::Int32)))),
        &mut writer,
        &array,
        &mut state,
    );
    assert!(writer.is_empty());
}

#[test]
fn test_write_nullability_array_type_variations() {
    let mut state = SerializerState::default();

    // Array(Nullable(Int64)) with rows [[1, null, 3], [null, null], [10, 20, 30]]
    let array1 = array(3, None);
    let mut writer: Vec<u8> = Vec::new();
    serialize_nulls(
        &Type::Array(Box::new(Type::Nullable(Box::new(Type::Int64)))),
        &mut writer,
        &array1,
        &mut state,
    );
    assert!(writer.is_empty(), "Array type should not write null mask");

    // Nullable(Array(Int64)) with rows [[1, 2, 3], null, [10, 20]]
    let array2 = array(3, Some(vec![0b101]));
    let mut writer2: Vec<u8> = Vec::new();
    serialize_nulls(
        &Type::Nullable(Box::new(Type::Array(Box::new(Type::Int64)))),
        &mut writer2,
        &array2,
        &mut state,
    );
    assert!(writer2.is_empty(), "Nullable(Array) should not write null mask");

    let mut writer3: Vec<u8> = Vec::new();
    serialize_nulls(
        &Type::Nullable(Box::new(Type::MapOf(Box::new(Type::String), Box::new(Type::Int32)))),
        &mut writer3,
        &array1,
        &mut state,
    );
    assert!(writer3.is_empty(), "Nullable(Map) should not write null mask");
}

#[test]
fn vectored_write_puts_mask_before_values() {
    let mut state = SerializerState::default();
    let arr = array(3, Some(vec![0b011]));
    let mut writer = vec![0xAB];
    write_nullable_vectored(&Type::Int8, &mut writer, &arr, &[7, 8, 9], &mut state);
    assert_eq!(writer, vec![0xAB, 0, 0, 1, 7, 8, 9]);

    let mut writer = Vec::new();
    write_nullable_vectored(&Type::Array(Box::new(Type::Int8)), &mut writer, &arr, &[7, 8, 9], &mut state);
    assert_eq!(writer, vec![7, 8, 9]);
}

#[test]
fn prepared_mask_has_one_byte_per_row() {
    let mut pool = BufferPool::new();
    let buf = prepare_null_bitmap(&mut pool, &array(10, Some(vec![0xF0, 0x01])));
    assert_eq!(buf.buffer().as_slice(), &[1, 1, 1, 1, 0, 0, 0, 0, 0, 1]);
    buf.release(&mut pool);
    assert_eq!(pool.stats().tiny_count, 1);
}

#[test]
fn null_masks_reuse_the_state_pool() {
    let mut state = SerializerState::default();
    let arr = array(3, Some(vec![0b101]));
    let mut writer = Vec::new();
    serialize_nulls(&Type::Int32, &mut writer, &arr, &mut state);
    assert_eq!(state.pool.stats().tiny_count, 1);
    serialize_nulls(&Type::Int32, &mut writer, &arr, &mut state);
    assert_eq!(state.pool.stats().tiny_count, 1);
    assert_eq!(writer, vec![0, 1, 0, 0, 1, 0]);
}
