use clickhouse_arrow::error::Error;
use clickhouse_arrow::primitives::ByteReader;
use clickhouse_arrow::sparse::{
    expand_sparse_array, read_sparse_offsets_sync, ColumnData, SparseDeserializeState, TimeUnit,
    END_OF_GRANULE_FLAG,
};

fn encode_var_uint(value: u64) -> Vec<u8> {
    let mut result = Vec::new();
    let mut v = value;
    loop {
        let byte = (v & 0x7f) as u8;
        v >>= 7;
        if v == 0 {
            result.push(byte);
            break;
        }
        result.push(byte | 0x80);
    }
    result
}

fn groups(values: &[u64]) -> ByteReader {
    let mut data = Vec::new();
    for &v in values {
        data.extend(encode_var_uint(v));
    }
    ByteReader::new(data)
}

#[test]
fn test_read_sparse_offsets_simple() {
    let mut bytes = groups(&[2, 1, 3 | END_OF_GRANULE_FLAG]);
    let mut state = SparseDeserializeState::default();
    let offsets = read_sparse_offsets_sync(&mut bytes, 8, &mut state).unwrap();
    assert_eq!(offsets, vec![2, 4]);
}

#[test]
fn test_read_sparse_offsets_all_defaults() {
    let mut bytes = groups(&[4 | END_OF_GRANULE_FLAG]);
    let mut state = SparseDeserializeState::default();
    let offsets = read_sparse_offsets_sync(&mut bytes, 4, &mut state).unwrap();
    assert!(offsets.is_empty());
}

#[test]
fn test_read_sparse_offsets_no_defaults() {
    let mut bytes = groups(&[0, 0, 0, END_OF_GRANULE_FLAG]);
    let mut state = SparseDeserializeState::default();
    let offsets = read_sparse_offsets_sync(&mut bytes, 3, &mut state).unwrap();
    assert_eq!(offsets, vec![0, 1, 2]);
}

#[test]
fn test_read_sparse_offsets_first_is_value() {
    let mut bytes = groups(&[0, 2, END_OF_GRANULE_FLAG]);
    let mut state = SparseDeserializeState::default();
    let offsets = read_sparse_offsets_sync(&mut bytes, 4, &mut state).unwrap();
    assert_eq!(offsets, vec![0, 3]);
}

#[test]
fn sparse_state_stays_empty_for_whole_granule() {
    let mut bytes = groups(&[2, 1, 3 | END_OF_GRANULE_FLAG]);
    let mut state = SparseDeserializeState::default();
    read_sparse_offsets_sync(&mut bytes, 8, &mut state).unwrap();
    assert_eq!(state, SparseDeserializeState::default());
    assert_eq!(bytes.remaining(), 0);
}

#[test]
fn sparse_only_last_row_is_value() {
    // 5 rows, only row 4 non-default: groups [4, 0 | END]
    let mut bytes = groups(&[4, END_OF_GRANULE_FLAG]);
    let mut state = SparseDeserializeState::default();
    assert_eq!(read_sparse_offsets_sync(&mut bytes, 5, &mut state).unwrap(), vec![4]);
    assert_eq!(state, SparseDeserializeState::default());
}

#[test]
fn sparse_consecutive_values_at_end() {
    // rows [d, v, v, v]: groups [1, 0, 0, 0 | END]
    let mut bytes = groups(&[1, 0, 0, END_OF_GRANULE_FLAG]);
    let mut state = SparseDeserializeState::default();
    assert_eq!(read_sparse_offsets_sync(&mut bytes, 4, &mut state).unwrap(), vec![1, 2, 3]);
}

#[test]
fn sparse_window_shorter_than_granule_drains_stream() {
    // granule of 8 rows [d,d,v,d,v,d,d,d], window of 3 rows, then a marker byte
    let mut data = Vec::new();
    for v in [2u64, 1, 3 | END_OF_GRANULE_FLAG] {
        data.extend(encode_var_uint(v));
    }
    data.push(0x2A);
    let mut bytes = ByteReader::new(data);
    let mut state = SparseDeserializeState::default();
    let offsets = read_sparse_offsets_sync(&mut bytes, 3, &mut state).unwrap();
    assert_eq!(offsets, vec![2]);
    assert!(state.has_value_after_defaults);
    assert_eq!(state.num_trailing_defaults, 4);
    // the whole granule was consumed: only the marker remains
    assert_eq!(bytes.remaining(), 1);
    assert_eq!(bytes.read_u8(), Some(0x2A));
}

#[test]
fn sparse_carried_state_is_applied_first() {
    let mut bytes = groups(&[1, END_OF_GRANULE_FLAG]);
    let mut state = SparseDeserializeState { num_trailing_defaults: 2, has_value_after_defaults: true };
    let offsets = read_sparse_offsets_sync(&mut bytes, 10, &mut state).unwrap();
    // value carried at row 2, then one default and a value at row 4
    assert_eq!(offsets, vec![2, 4]);
    assert_eq!(state, SparseDeserializeState::default());
}

#[test]
fn sparse_truncated_stream_is_error() {
    let mut bytes = groups(&[2, 1]);
    let mut state = SparseDeserializeState::default();
    let err = read_sparse_offsets_sync(&mut bytes, 8, &mut state).unwrap_err();
    assert!(matches!(err, Error::Protocol(_)));
}

#[test]
fn test_expand_sparse_int64_array() {
    let sparse_array = ColumnData::Int64(vec![Some(10i64), Some(30i64)]);
    let offsets = vec![1, 3];
    let expanded = expand_sparse_array(&sparse_array, &offsets, 5).unwrap();
    match expanded {
        ColumnData::Int64(v) => {
            assert_eq!(v.len(), 5);
            assert_eq!(v[0], Some(0));
            assert_eq!(v[1], Some(10));
            assert_eq!(v[2], Some(0));
            assert_eq!(v[3], Some(30));
            assert_eq!(v[4], Some(0));
        },
        other => panic!("unexpected column {other:?}"),
    }
}

#[test]
fn test_expand_sparse_string_array() {
    let sparse_array = ColumnData::Utf8(vec![Some("hello".to_string()), Some("world".to_string())]);
    let offsets = vec![0, 2];
    let expanded = expand_sparse_array(&sparse_array, &offsets, 4).unwrap();
    match expanded {
        ColumnData::Utf8(v) => {
            assert_eq!(v.len(), 4);
            assert_eq!(v[0].as_deref(), Some("hello"));
            assert_eq!(v[1].as_deref(), Some(""));
            assert_eq!(v[2].as_deref(), Some("world"));
            assert_eq!(v[3].as_deref(), Some(""));
        },
        other => panic!("unexpected column {other:?}"),
    }
}

#[test]
fn test_expand_sparse_all_values() {
    let sparse_array = ColumnData::Int32(vec![Some(1i32), Some(2), Some(3)]);
    let offsets = vec![0, 1, 2];
    let expanded = expand_sparse_array(&sparse_array, &offsets, 3).unwrap();
    match expanded {
        ColumnData::Int32(v) => {
            assert_eq!(v.len(), 3);
            assert_eq!(v[0], Some(1));
            assert_eq!(v[1], Some(2));
            assert_eq!(v[2], Some(3));
        },
        other => panic!("unexpected column {other:?}"),
    }
}

#[test]
fn test_expand_sparse_empty() {
    let sparse_array = ColumnData::Int32(Vec::new());
    let offsets: Vec<usize> = vec![];
    let expanded = expand_sparse_array(&sparse_array, &offsets, 5).unwrap();
    match expanded {
        ColumnData::Int32(v) => {
            assert_eq!(v.len(), 5);
            for i in 0..5 {
                assert_eq!(v[i], Some(0));
            }
        },
        other => panic!("unexpected column {other:?}"),
    }
}

#[test]
fn expand_keeps_nulls_and_types() {
    let sparse = ColumnData::Timestamp(TimeUnit::Millisecond, Some("UTC".to_string()), vec![None, Some(7)]);
    match expand_sparse_array(&sparse, &[0, 2], 3).unwrap() {
        ColumnData::Timestamp(unit, tz, v) => {
            assert_eq!(unit, TimeUnit::Millisecond);
            assert_eq!(tz.as_deref(), Some("UTC"));
            assert_eq!(v, vec![None, Some(0), Some(7)]);
        },
        other => panic!("unexpected column {other:?}"),
    }
    match expand_sparse_array(&ColumnData::Boolean(vec![Some(true)]), &[1], 3).unwrap() {
        ColumnData::Boolean(v) => assert_eq!(v, vec![Some(false), Some(true), Some(false)]),
        other => panic!("unexpected column {other:?}"),
    }
    match expand_sparse_array(&ColumnData::FixedSizeBinary(2, vec![Some(vec![1, 2])]), &[0], 2).unwrap() {
        ColumnData::FixedSizeBinary(2, v) => assert_eq!(v, vec![Some(vec![1, 2]), Some(vec![0, 0])]),
        other => panic!("unexpected column {other:?}"),
    }
    match expand_sparse_array(&ColumnData::Binary(vec![Some(vec![9])]), &[1], 2).unwrap() {
        ColumnData::Binary(v) => assert_eq!(v, vec![Some(vec![]), Some(vec![9])]),
        other => panic!("unexpected column {other:?}"),
    }
    match expand_sparse_array(&ColumnData::Decimal256(76, 2, vec![Some((5, 1))]), &[0], 2).unwrap() {
        ColumnData::Decimal256(76, 2, v) => assert_eq!(v, vec![Some((5, 1)), Some((0, 0))]),
        other => panic!("unexpected column {other:?}"),
    }
}

#[test]
fn expand_unsupported_type_fails_loud() {
    let err = expand_sparse_array(&ColumnData::Unsupported("List(Int32)".to_string()), &[], 3).unwrap_err();
    assert!(matches!(err, Error::Unimplemented(ref m) if m.contains("List(Int32)")));
    let err = expand_sparse_array(&ColumnData::FixedSizeBinary(-1, vec![]), &[], 3).unwrap_err();
    assert!(matches!(err, Error::UnexpectedType(_)));
}

#[test]
fn read_then_expand() {
    let mut bytes = groups(&[1, 1, END_OF_GRANULE_FLAG | 1]);
    let mut state = SparseDeserializeState::default();
    let offsets = read_sparse_offsets_sync(&mut bytes, 5, &mut state).unwrap();
    assert_eq!(offsets, vec![1, 3]);
    match expand_sparse_array(&ColumnData::UInt16(vec![Some(10), Some(30)]), &offsets, 5).unwrap() {
        ColumnData::UInt16(v) => assert_eq!(v, vec![Some(0), Some(10), Some(0), Some(30), Some(0)]),
        other => panic!("unexpected column {other:?}"),
    }
}

#[test]
fn expand_walks_offsets_with_a_cursor() {
    // positions out of order: the cursor only matches row 3, then waits on 1
    match expand_sparse_array(&ColumnData::Int8(vec![Some(7), Some(9)]), &[3, 1], 5).unwrap() {
        ColumnData::Int8(v) => assert_eq!(v, vec![Some(0), Some(0), Some(0), Some(7), Some(0)]),
        other => panic!("unexpected column {other:?}"),
    }
}
