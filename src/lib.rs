//! Columnar wire codec for the ClickHouse native protocol: framed compression
//! with a CityHash-128 envelope, null-mask expansion, sparse column decoding,
//! a tiered buffer pool, and the varint / byte-order primitives they share.

mod codecs;

pub mod bitmap;
pub mod error;
pub mod frame;
pub mod pool;
pub mod primitives;
pub mod sparse;
