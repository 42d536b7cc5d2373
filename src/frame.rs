//! The compressed frame: `checksum(16) ‖ method(1) ‖ compressed_size(4) ‖
//! decompressed_size(4) ‖ payload`, where the checksum is CityHash-128 over
//! everything after it and `compressed_size` counts the 9 header bytes.

use crate::codecs::{
    cityhash128,
    cityhash128_of,
    hex128,
    hex32,
    io_error_text,
    lz4_block_of,
    lz4_compress,
    lz4_decoded,
    lz4_decompress,
    lz4_error_text,
    zstd_block_of,
    zstd_compress,
    zstd_decoded,
    zstd_decompress,
};
use crate::error::Error;
use crate::pool::PooledBuffer;
use crate::primitives::{
    le_bytes,
    le_value,
    lemma_le_round_trip,
    lemma_le_value_bound,
    lemma_pow256_values,
    pow256,
    ByteReader,
};
use vstd::prelude::*;
use vstd::string::StringExecFns;

verus! {

/// How a frame's payload is compressed.
#[derive(Clone, Copy, Debug, PartialEq, Eq, Structural)]
pub enum CompressionMethod {
    Uncompressed,
    LZ4,
    ZSTD,
}

/// The method byte on the wire.
pub open spec fn method_byte(m: CompressionMethod) -> u8 {
    match m {
        CompressionMethod::Uncompressed => 0x02,
        CompressionMethod::LZ4 => 0x82,
        CompressionMethod::ZSTD => 0x90,
    }
}

impl CompressionMethod {
    /// The method byte on the wire.
    pub fn byte(&self) -> (r: u8)
        ensures
            r == method_byte(*self),
    {
        match self {
            CompressionMethod::Uncompressed => 0x02,
            CompressionMethod::LZ4 => 0x82,
            CompressionMethod::ZSTD => 0x90,
        }
    }
}

/// Bytes of the checksum in front of each frame.
pub const CHECKSUM_LEN: usize = 16;

/// Bytes of the method-and-sizes header.
pub const HEADER_LEN: usize = 9;

/// Largest accepted compressed size (header included).
pub const MAX_COMPRESSED_SIZE: u32 = 100_000_000;

/// Largest accepted decompressed size.
pub const MAX_DECOMPRESSED_SIZE: u32 = 1_000_000_000;

/// The zstd level frames are written with.
pub const ZSTD_LEVEL: i32 = 1;

/// `2^64`.
pub open spec fn two64() -> nat {
    0x1_0000_0000_0000_0000nat
}

/// What the compressor makes of a raw payload.
pub open spec fn compressed_payload(m: CompressionMethod, raw: Seq<u8>) -> Seq<u8> {
    match m {
        CompressionMethod::LZ4 => lz4_block_of(raw),
        CompressionMethod::ZSTD => zstd_block_of(raw, ZSTD_LEVEL as int),
        CompressionMethod::Uncompressed => Seq::empty(),
    }
}

/// Method byte and the two sizes.
pub open spec fn frame_header(m: u8, compressed_size: nat, decompressed_size: nat) -> Seq<u8> {
    seq![m] + le_bytes(compressed_size, 4) + le_bytes(decompressed_size, 4)
}

/// The checksummed part of a frame: header and payload.
pub open spec fn frame_body(m: u8, payload: Seq<u8>, decompressed_size: nat) -> Seq<u8> {
    frame_header(m, payload.len() + 9, decompressed_size) + payload
}

/// The on-wire frame: high then low half of the checksum, each little-endian,
/// then the body.
pub open spec fn frame_bytes(m: u8, payload: Seq<u8>, decompressed_size: nat) -> Seq<u8> {
    let body = frame_body(m, payload, decompressed_size);
    let ck = cityhash128_of(body) as nat;
    le_bytes(ck / two64(), 8) + le_bytes(ck % two64(), 8) + body
}

/// The frame that encoding `raw` with `m` writes.
pub open spec fn encoded_frame(m: CompressionMethod, raw: Seq<u8>) -> Seq<u8> {
    frame_bytes(method_byte(m), compressed_payload(m, raw), raw.len())
}

/// Inputs the encoder accepts: their length fits the header and the LZ4
/// output bound is computable.
pub open spec fn encodable_len(n: nat) -> bool {
    n <= u32::MAX && n <= usize::MAX / 110
}

/// The most bytes the compressor of `m` makes of `n` bytes.
pub open spec fn max_compressed_len(m: CompressionMethod, n: nat) -> nat {
    match m {
        CompressionMethod::LZ4 => 20 + n * 110 / 100,
        CompressionMethod::ZSTD => n + n / 256 + 64,
        CompressionMethod::Uncompressed => 0,
    }
}

/// Whether the encoded sizes of `raw` fit their 32-bit header fields.
pub open spec fn frame_sizes_fit(m: CompressionMethod, raw: Seq<u8>) -> bool {
    raw.len() <= u32::MAX && compressed_payload(m, raw).len() + 9 <= u32::MAX
}

/// The stored checksum of the frame at the front of `s`.
pub open spec fn stored_checksum(s: Seq<u8>) -> nat {
    le_value(s.subrange(0, 8)) * two64() + le_value(s.subrange(8, 16))
}

/// The compressed size field of the frame at the front of `s`.
pub open spec fn stored_compressed_size(s: Seq<u8>) -> nat {
    le_value(s.subrange(17, 21))
}

/// The decompressed size field of the frame at the front of `s`.
pub open spec fn stored_decompressed_size(s: Seq<u8>) -> nat {
    le_value(s.subrange(21, 25))
}

/// How many bytes the frame at the front of `s` spans.
pub open spec fn stored_frame_len(s: Seq<u8>) -> nat {
    16 + stored_compressed_size(s)
}

/// The payload of the frame at the front of `s`.
pub open spec fn stored_payload(s: Seq<u8>) -> Seq<u8> {
    s.subrange(25, stored_frame_len(s) as int)
}

/// `s` starts with a complete frame of method `m` whose sizes are in range and
/// whose checksum matches.
pub open spec fn frame_well_formed(s: Seq<u8>, m: CompressionMethod) -> bool {
    &&& s.len() >= 25
    &&& s[16] == method_byte(m)
    &&& 9 <= stored_compressed_size(s) <= MAX_COMPRESSED_SIZE
    &&& stored_decompressed_size(s) <= MAX_DECOMPRESSED_SIZE
    &&& s.len() >= stored_frame_len(s)
    &&& stored_checksum(s) == cityhash128_of(s.subrange(16, stored_frame_len(s) as int)) as nat
}

/// The message of a checksum mismatch.
pub open spec fn checksum_message(expected: u128, computed: u128) -> Seq<char> {
    "Checksum mismatch: expected "@ + hex32(expected) + ", got "@ + hex32(computed)
}

/// Why the front of `s` is not a frame of method `m`, with the number of bytes
/// the decoder has consumed when it finds out; `None` when it is one.
pub open spec fn frame_error(s: Seq<u8>, m: CompressionMethod) -> Option<(Seq<char>, nat)> {
    if s.len() < 8 {
        Some(("Failed to read checksum high: unexpected end of stream"@, 0))
    } else if s.len() < 16 {
        Some(("Failed to read checksum low: unexpected end of stream"@, 8))
    } else if s.len() < 25 {
        Some(("Failed to read compression header: unexpected end of stream"@, 16))
    } else if s[16] != method_byte(m) {
        Some(("Unexpected compression algorithm"@, 25))
    } else if !(9 <= stored_compressed_size(s) <= MAX_COMPRESSED_SIZE) || stored_decompressed_size(s) > MAX_DECOMPRESSED_SIZE {
        Some(("Chunk size too large"@, 25))
    } else if s.len() < stored_frame_len(s) {
        Some(("Failed to read compressed payload: unexpected end of stream"@, 25))
    } else if stored_checksum(s) != cityhash128_of(s.subrange(16, stored_frame_len(s) as int)) as nat {
        Some((
            checksum_message(stored_checksum(s) as u128, cityhash128_of(s.subrange(16, stored_frame_len(s) as int))),
            stored_frame_len(s),
        ))
    } else {
        None
    }
}

/// What the codec of `m` makes of a payload and a declared size.
pub open spec fn codec_decoded(m: CompressionMethod, payload: Seq<u8>, size: nat) -> Option<Seq<u8>> {
    match m {
        CompressionMethod::LZ4 => lz4_decoded(payload, size),
        CompressionMethod::ZSTD => zstd_decoded(payload, size),
        CompressionMethod::Uncompressed => None,
    }
}

/// The codec gives exactly the declared number of bytes.
pub open spec fn codec_ok(m: CompressionMethod, s: Seq<u8>) -> bool {
    codec_decoded(m, stored_payload(s), stored_decompressed_size(s)) is Some
        && codec_decoded(m, stored_payload(s), stored_decompressed_size(s))->Some_0.len() == stored_decompressed_size(s)
}

/// What decoding the front of `s` with method `m` returns.
pub open spec fn decode_outcome(s: Seq<u8>, m: CompressionMethod, r: Result<Seq<u8>, Error>) -> bool {
    if m is Uncompressed {
        r matches Err(Error::DeserializeError(e)) && e@ == "Attempted to decompress uncompressed data"@
    } else if frame_error(s, m) is Some {
        r matches Err(Error::Protocol(e)) && e@ == frame_error(s, m)->Some_0.0
    } else {
        &&& codec_ok(m, s) ==> r == Ok::<Seq<u8>, Error>(codec_decoded(m, stored_payload(s), stored_decompressed_size(s))->Some_0)
        &&& !codec_ok(m, s) ==> (r is Err && r->Err_0 is DeserializeError)
        &&& forall|p: Seq<u8>|
            #![trigger compressed_payload(m, p)]
            stored_payload(s) == compressed_payload(m, p) && stored_decompressed_size(s) == p.len() ==> r == Ok::<Seq<u8>, Error>(p)
    }
}

/// Where the decoder leaves the stream `s`.
pub open spec fn decode_rest(s: Seq<u8>, m: CompressionMethod, rest: Seq<u8>) -> bool {
    if m is Uncompressed {
        rest == s
    } else if frame_error(s, m) is Some {
        rest == s.subrange(frame_error(s, m)->Some_0.1 as int, s.len() as int)
    } else {
        rest == s.subrange(stored_frame_len(s) as int, s.len() as int)
    }
}

/// A decode result seen through the payload's contents.
pub open spec fn result_view(r: Result<Vec<u8>, Error>) -> Result<Seq<u8>, Error> {
    match r {
        Ok(v) => Ok(v@),
        Err(e) => Err(e),
    }
}

/// A frame is well formed exactly when the decoder finds nothing wrong with it.
pub proof fn lemma_frame_error_none(s: Seq<u8>, m: CompressionMethod)
    ensures
        frame_error(s, m) is None <==> frame_well_formed(s, m),
{
}

/// Appends the `n` low bytes of `x`, least significant first.
fn push_le(out: &mut Vec<u8>, x: u64, n: usize)
    requires
        n <= 8,
    ensures
        final(out)@ == old(out)@ + le_bytes(x as nat, n as nat),
{
    let ghost full = le_bytes(x as nat, n as nat);
    let mut v: u64 = x;
    let mut i: usize = 0;
    while i < n
        invariant
            i <= n,
            full == le_bytes(x as nat, n as nat),
            out@ + le_bytes(v as nat, (n - i) as nat) == old(out)@ + full,
        decreases n - i,
    {
        let byte = (v % 256) as u8;
        assert(le_bytes(v as nat, (n - i) as nat) =~= seq![byte] + le_bytes((v / 256) as nat, (n - i - 1) as nat));
        out.push(byte);
        assert(out@ + le_bytes((v / 256) as nat, (n - i - 1) as nat) =~= old(out)@ + full);
        v = v / 256;
        i = i + 1;
    }
    assert(le_bytes(v as nat, 0) =~= Seq::<u8>::empty());
    assert(out@ =~= old(out)@ + full);
}

/// Appends `src` to `out`.
fn push_all(out: &mut Vec<u8>, src: &[u8])
    ensures
        final(out)@ == old(out)@ + src@,
{
    let mut i: usize = 0;
    while i < src.len()
        invariant
            i <= src@.len(),
            out@ == old(out)@ + src@.subrange(0, i as int),
        decreases src@.len() - i,
    {
        out.push(src[i]);
        assert(src@.subrange(0, i + 1) =~= src@.subrange(0, i as int).push(src@[i as int]));
        i = i + 1;
    }
    assert(src@.subrange(0, src@.len() as int) =~= src@);
}

/// Compresses `raw` and builds its whole frame.
fn encode_frame(raw: &[u8], compression: CompressionMethod) -> (r: Result<Vec<u8>, Error>)
    requires
        !(compression is Uncompressed),
    ensures
        r matches Ok(f) ==> f@ == encoded_frame(compression, raw@) && frame_sizes_fit(compression, raw@)
            && compressed_payload(compression, raw@).len() <= max_compressed_len(compression, raw@.len()),
        r is Err ==> (r is Err && r->Err_0 is SerializeError),
        r is Ok <==> encodable_len(raw@.len()) && frame_sizes_fit(compression, raw@),
        encodable_len(raw@.len()) && raw@.len() <= MAX_DECOMPRESSED_SIZE ==> r is Ok,
{
    if raw.len() > u32::MAX as usize || raw.len() > usize::MAX / 110 {
        return Err(Error::SerializeError(String::from_str("Chunk size does not fit the frame header")));
    }
    let out = match compression {
        CompressionMethod::ZSTD => match zstd_compress(raw, ZSTD_LEVEL) {
            Ok(v) => v,
            Err(e) => {
                return Err(
                    Error::SerializeError(
                        String::from_str("ZSTD compress error: ").concat(io_error_text(&e).as_str()),
                    ),
                );
            },
        },
        _ => lz4_compress(raw),
    };
    assert(out@ == compressed_payload(compression, raw@));
    if out.len() > (u32::MAX - 9) as usize {
        return Err(Error::SerializeError(String::from_str("Chunk size does not fit the frame header")));
    }
    let compressed_size: u64 = out.len() as u64 + 9;
    let mut body: Vec<u8> = Vec::with_capacity(out.len() + 9);
    body.push(compression.byte());
    push_le(&mut body, compressed_size, 4);
    push_le(&mut body, raw.len() as u64, 4);
    push_all(&mut body, out.as_slice());
    let ghost body_spec = frame_body(method_byte(compression), out@, raw@.len());
    assert(body@ =~= body_spec);
    let hash = cityhash128(body.as_slice());
    let high: u64 = (hash / 0x1_0000_0000_0000_0000) as u64;
    let low: u64 = (hash % 0x1_0000_0000_0000_0000) as u64;
    let mut frame: Vec<u8> = Vec::new();
    push_le(&mut frame, high, 8);
    push_le(&mut frame, low, 8);
    push_all(&mut frame, body.as_slice());
    assert(frame@ =~= encoded_frame(compression, raw@));
    Ok(frame)
}

/// Compresses `raw` and appends its frame to `writer`. With `None` nothing is
/// written: the caller sends the raw payload itself.
pub fn compress_data(writer: &mut Vec<u8>, raw: Vec<u8>, compression: CompressionMethod) -> (r: Result<(), Error>)
    ensures
        compression is Uncompressed ==> r is Ok && final(writer)@ == old(writer)@,
        !(compression is Uncompressed) && r is Ok ==> final(writer)@ == old(writer)@ + encoded_frame(compression, raw@)
            && frame_sizes_fit(compression, raw@) && compressed_payload(compression, raw@).len() <= max_compressed_len(compression, raw@.len()),
        r is Err ==> final(writer)@ == old(writer)@ && (r is Err && r->Err_0 is SerializeError),
        !(compression is Uncompressed) ==> (r is Ok <==> encodable_len(raw@.len()) && frame_sizes_fit(compression, raw@)),
        encodable_len(raw@.len()) && raw@.len() <= MAX_DECOMPRESSED_SIZE ==> r is Ok,
{
    write_frame(writer, raw.as_slice(), compression)
}

/// Same as [`compress_data`], for a borrowed payload.
pub fn compress_data_sync(writer: &mut Vec<u8>, raw: &[u8], compression: CompressionMethod) -> (r: Result<(), Error>)
    ensures
        compression is Uncompressed ==> r is Ok && final(writer)@ == old(writer)@,
        !(compression is Uncompressed) && r is Ok ==> final(writer)@ == old(writer)@ + encoded_frame(compression, raw@)
            && frame_sizes_fit(compression, raw@) && compressed_payload(compression, raw@).len() <= max_compressed_len(compression, raw@.len()),
        r is Err ==> final(writer)@ == old(writer)@ && (r is Err && r->Err_0 is SerializeError),
        !(compression is Uncompressed) ==> (r is Ok <==> encodable_len(raw@.len()) && frame_sizes_fit(compression, raw@)),
        encodable_len(raw@.len()) && raw@.len() <= MAX_DECOMPRESSED_SIZE ==> r is Ok,
{
    write_frame(writer, raw, compression)
}

/// Same as [`compress_data`], for a payload held in a pooled buffer.
pub fn compress_data_pooled(writer: &mut Vec<u8>, raw: PooledBuffer, compression: CompressionMethod) -> (r: Result<(), Error>)
    requires
        raw.has_buffer(),
    ensures
        compression is Uncompressed ==> r is Ok && final(writer)@ == old(writer)@,
        !(compression is Uncompressed) && r is Ok ==> final(writer)@ == old(writer)@ + encoded_frame(compression, raw@)
            && frame_sizes_fit(compression, raw@) && compressed_payload(compression, raw@).len() <= max_compressed_len(compression, raw@.len()),
        r is Err ==> final(writer)@ == old(writer)@ && (r is Err && r->Err_0 is SerializeError),
        !(compression is Uncompressed) ==> (r is Ok <==> encodable_len(raw@.len()) && frame_sizes_fit(compression, raw@)),
        encodable_len(raw@.len()) && raw@.len() <= MAX_DECOMPRESSED_SIZE ==> r is Ok,
{
    write_frame(writer, raw.buffer().as_slice(), compression)
}

fn write_frame(writer: &mut Vec<u8>, raw: &[u8], compression: CompressionMethod) -> (r: Result<(), Error>)
    ensures
        compression is Uncompressed ==> r is Ok && final(writer)@ == old(writer)@,
        !(compression is Uncompressed) && r is Ok ==> final(writer)@ == old(writer)@ + encoded_frame(compression, raw@)
            && frame_sizes_fit(compression, raw@) && compressed_payload(compression, raw@).len() <= max_compressed_len(compression, raw@.len()),
        r is Err ==> final(writer)@ == old(writer)@ && (r is Err && r->Err_0 is SerializeError),
        !(compression is Uncompressed) ==> (r is Ok <==> encodable_len(raw@.len()) && frame_sizes_fit(compression, raw@)),
        encodable_len(raw@.len()) && raw@.len() <= MAX_DECOMPRESSED_SIZE ==> r is Ok,
{
    if compression == CompressionMethod::Uncompressed {
        return Ok(());
    }
    let frame = encode_frame(raw, compression)?;
    push_all(writer, frame.as_slice());
    Ok(())
}

fn protocol_error(msg: &str) -> (e: Error)
    ensures
        e matches Error::Protocol(m) && m@ == msg@,
{
    Error::Protocol(String::from_str(msg))
}

/// Reads one frame from `reader` and returns its decompressed payload. The
/// frame must carry `compression`'s method byte, sizes in range, and a
/// checksum that matches, and must decompress to exactly its declared size;
/// each failure is reported with its own message.
pub fn decompress_data(reader: &mut ByteReader, compression: CompressionMethod) -> (r: Result<Vec<u8>, Error>)
    ensures
        decode_outcome(old(reader)@, compression, result_view(r)),
        decode_rest(old(reader)@, compression, final(reader)@),
        r matches Ok(v) ==> v@.len() == stored_decompressed_size(old(reader)@),
{
    let ghost s = reader@;
    if compression == CompressionMethod::Uncompressed {
        return Err(Error::DeserializeError(String::from_str("Attempted to decompress uncompressed data")));
    }
    assert(s.subrange(0, s.len() as int) =~= s);
    let high = match reader.read_u64_le() {
        Some(v) => v,
        None => return Err(protocol_error("Failed to read checksum high: unexpected end of stream")),
    };
    let ghost s1 = reader@;
    assert(s1 =~= s.subrange(8, s.len() as int));
    let low = match reader.read_u64_le() {
        Some(v) => v,
        None => return Err(protocol_error("Failed to read checksum low: unexpected end of stream")),
    };
    assert(s1.subrange(0, 8) =~= s.subrange(8, 16));
    let ghost after_checksum = reader@;
    assert(after_checksum =~= s.subrange(16, s.len() as int));
    let header = match reader.read_exact(HEADER_LEN) {
        Some(h) => h,
        None => return Err(protocol_error("Failed to read compression header: unexpected end of stream")),
    };
    assert(header@ =~= s.subrange(16, 25));
    assert(reader@ =~= s.subrange(25, s.len() as int));
    let type_byte = header[0];
    if type_byte != compression.byte() {
        return Err(protocol_error("Unexpected compression algorithm"));
    }
    let compressed_size = read_le_u32(header.as_slice(), 1);
    let decompressed_size = read_le_u32(header.as_slice(), 5);
    assert(header@.subrange(1, 5) =~= s.subrange(17, 21));
    assert(header@.subrange(5, 9) =~= s.subrange(21, 25));
    if compressed_size > MAX_COMPRESSED_SIZE || decompressed_size > MAX_DECOMPRESSED_SIZE
        || compressed_size < HEADER_LEN as u32 {
        return Err(protocol_error("Chunk size too large"));
    }
    let payload = match reader.read_exact((compressed_size - 9) as usize) {
        Some(p) => p,
        None => return Err(protocol_error("Failed to read compressed payload: unexpected end of stream")),
    };
    let ghost end = 16 + compressed_size;
    assert(payload@ =~= s.subrange(25, end as int));
    assert(reader@ =~= s.subrange(end as int, s.len() as int));
    let mut body = header;
    push_all(&mut body, payload.as_slice());
    assert(body@ =~= s.subrange(16, end as int));
    let stored: u128 = high as u128 * 0x1_0000_0000_0000_0000 + low as u128;
    assert(stored as nat == stored_checksum(s));
    assert(compressed_size as nat == stored_compressed_size(s));
    let computed = cityhash128(body.as_slice());
    if computed != stored {
        let msg = String::from_str("Checksum mismatch: expected ").concat(hex128(stored).as_str()).concat(
            ", got ",
        ).concat(hex128(computed).as_str());
        return Err(Error::Protocol(msg));
    }
    assert(frame_well_formed(s, compression));
    let decoded = match compression {
        CompressionMethod::LZ4 => match lz4_decompress(payload.as_slice(), decompressed_size as usize) {
            Ok(v) => v,
            Err(e) => {
                return Err(
                    Error::DeserializeError(
                        String::from_str("LZ4 decompress error: ").concat(lz4_error_text(&e).as_str()),
                    ),
                );
            },
        },
        _ => match zstd_decompress(payload.as_slice(), decompressed_size as usize) {
            Ok(v) => v,
            Err(e) => {
                return Err(
                    Error::DeserializeError(
                        String::from_str("ZSTD decompress error: ").concat(io_error_text(&e).as_str()),
                    ),
                );
            },
        },
    };
    if decoded.len() != decompressed_size as usize {
        return Err(Error::DeserializeError(String::from_str("Decompressed size does not match the frame header")));
    }
    Ok(decoded)
}

/// How many bytes the frame starting with `header` (its first 25 bytes or
/// more) spans, when its compressed size is in range; `None` otherwise, and the
/// decoder then says what is wrong.
pub fn frame_total_len(header: &[u8]) -> (r: Option<usize>)
    ensures
        header@.len() < 25 ==> r is None,
        header@.len() >= 25 ==> (r is Some <==> 9 <= stored_compressed_size(header@) <= MAX_COMPRESSED_SIZE),
        r matches Some(n) ==> n == stored_frame_len(header@),
{
    if header.len() < 25 {
        return None;
    }
    let compressed_size = read_le_u32(header, 17);
    if compressed_size < HEADER_LEN as u32 || compressed_size > MAX_COMPRESSED_SIZE {
        return None;
    }
    Some(compressed_size as usize + CHECKSUM_LEN)
}

/// The little-endian `u32` at `data[start..start + 4]`.
fn read_le_u32(data: &[u8], start: usize) -> (r: u32)
    requires
        start + 4 <= data.len(),
    ensures
        r as nat == le_value(data@.subrange(start as int, start + 4)),
{
    let mut acc: u32 = 0;
    let mut j: usize = start + 4;
    proof {
        lemma_pow256_values();
        assert(data@.subrange(j as int, start + 4) =~= Seq::<u8>::empty());
    }
    while j > start
        invariant
            start <= j <= start + 4,
            start + 4 <= data.len(),
            acc as nat == le_value(data@.subrange(j as int, start + 4)),
            pow256(4) == 0x1_0000_0000nat,
        decreases j,
    {
        let ghost ext = data@.subrange(j - 1, start + 4);
        assert(ext.drop_first() =~= data@.subrange(j as int, start + 4));
        proof {
            lemma_le_value_bound(ext);
            crate::primitives::lemma_pow256_monotonic(ext.len(), 4);
        }
        acc = acc * 256 + data[j - 1] as u32;
        j = j - 1;
    }
    acc
}

/// The fields of an encoded frame read back as written, and the frame passes
/// every check the decoder makes.
pub proof fn lemma_encoded_frame_fields(m: CompressionMethod, p: Seq<u8>)
    requires
        !(m is Uncompressed),
        p.len() <= MAX_DECOMPRESSED_SIZE,
        compressed_payload(m, p).len() + 9 <= MAX_COMPRESSED_SIZE,
    ensures
        frame_well_formed(encoded_frame(m, p), m),
        stored_payload(encoded_frame(m, p)) == compressed_payload(m, p),
        stored_decompressed_size(encoded_frame(m, p)) == p.len(),
        stored_frame_len(encoded_frame(m, p)) == encoded_frame(m, p).len(),
{
    let c = compressed_payload(m, p);
    let body = frame_body(method_byte(m), c, p.len());
    let ck = cityhash128_of(body) as nat;
    let f = encoded_frame(m, p);
    lemma_pow256_values();
    lemma_le_round_trip(c.len() + 9, 4);
    lemma_le_round_trip(p.len(), 4);
    assert(ck / two64() < two64()) by (nonlinear_arith)
        requires
            ck < two64() * two64(),
            two64() > 0,
    ;
    assert(ck == (ck / two64()) * two64() + ck % two64()) by (nonlinear_arith)
        requires
            two64() > 0,
    ;
    lemma_le_round_trip(ck / two64(), 8);
    lemma_le_round_trip(ck % two64(), 8);
    let hi = le_bytes(ck / two64(), 8);
    let lo = le_bytes(ck % two64(), 8);
    let csz = le_bytes(c.len() + 9, 4);
    let dsz = le_bytes(p.len(), 4);
    assert(f =~= hi + lo + body);
    assert(body =~= seq![method_byte(m)] + csz + dsz + c);
    assert(f.subrange(0, 8) =~= hi);
    assert(f.subrange(8, 16) =~= lo);
    assert(f.subrange(17, 21) =~= csz);
    assert(f.subrange(21, 25) =~= dsz);
    assert(f.subrange(16, f.len() as int) =~= body);
    assert(f.subrange(25, f.len() as int) =~= c);
}

/// Decoding the frame that encoding `p` wrote, whatever follows it, gives `p`
/// back with LZ4 and with ZSTD, and leaves the stream right after the frame.
pub proof fn lemma_round_trip(m: CompressionMethod, p: Seq<u8>, r: Result<Seq<u8>, Error>, rest: Seq<u8>, after: Seq<u8>)
    requires
        !(m is Uncompressed),
        p.len() <= MAX_DECOMPRESSED_SIZE,
        compressed_payload(m, p).len() + 9 <= MAX_COMPRESSED_SIZE,
        decode_outcome(encoded_frame(m, p) + rest, m, r),
        decode_rest(encoded_frame(m, p) + rest, m, after),
    ensures
        frame_sizes_fit(m, p),
        r == Ok::<Seq<u8>, Error>(p),
        after == rest,
{
    let f = encoded_frame(m, p);
    let s = f + rest;
    lemma_encoded_frame_fields(m, p);
    lemma_frame_prefix(f, rest, m);
    lemma_frame_error_none(s, m);
    assert(stored_payload(s) == compressed_payload(m, p));
    assert(s.subrange(f.len() as int, s.len() as int) =~= rest);
}

/// A frame keeps its fields when more bytes follow it.
proof fn lemma_frame_prefix(f: Seq<u8>, rest: Seq<u8>, m: CompressionMethod)
    requires
        frame_well_formed(f, m),
        stored_frame_len(f) == f.len(),
    ensures
        frame_well_formed(f + rest, m),
        stored_frame_len(f + rest) == f.len(),
        stored_payload(f + rest) == stored_payload(f),
        stored_decompressed_size(f + rest) == stored_decompressed_size(f),
{
    let s = f + rest;
    assert(s.subrange(0, 8) =~= f.subrange(0, 8));
    assert(s.subrange(8, 16) =~= f.subrange(8, 16));
    assert(s.subrange(17, 21) =~= f.subrange(17, 21));
    assert(s.subrange(21, 25) =~= f.subrange(21, 25));
    assert(s.subrange(16, f.len() as int) =~= f.subrange(16, f.len() as int));
    assert(s.subrange(25, f.len() as int) =~= f.subrange(25, f.len() as int));
}

/// Two equally long little-endian strings with the same value are equal.
pub proof fn lemma_le_value_injective(a: Seq<u8>, b: Seq<u8>)
    requires
        a.len() == b.len(),
        le_value(a) == le_value(b),
    ensures
        a == b,
    decreases a.len(),
{
    if a.len() > 0 {
        let a0 = a[0] as nat;
        let b0 = b[0] as nat;
        let ra = le_value(a.drop_first());
        let rb = le_value(b.drop_first());
        assert(a0 == b0 && ra == rb) by (nonlinear_arith)
            requires
                a0 + 256 * ra == b0 + 256 * rb,
                a0 < 256,
                b0 < 256,
        ;
        lemma_le_value_injective(a.drop_first(), b.drop_first());
        assert(a =~= seq![a[0]] + a.drop_first());
        assert(b =~= seq![b[0]] + b.drop_first());
    } else {
        assert(a =~= b);
    }
}

/// Flipping any bits of one checksum byte of an encoded frame makes decoding
/// fail with the checksum-mismatch error, which reports the stored and the
/// recomputed checksum.
pub proof fn lemma_checksum_tamper(m: CompressionMethod, p: Seq<u8>, i: int, mask: u8, r: Result<Seq<u8>, Error>)
    requires
        !(m is Uncompressed),
        p.len() <= MAX_DECOMPRESSED_SIZE,
        compressed_payload(m, p).len() + 9 <= MAX_COMPRESSED_SIZE,
        0 <= i < CHECKSUM_LEN,
        mask != 0,
        decode_outcome(encoded_frame(m, p).update(i, encoded_frame(m, p)[i] ^ mask), m, r),
    ensures
        r matches Err(Error::Protocol(e)) && e@ == checksum_message(
            stored_checksum(encoded_frame(m, p).update(i, encoded_frame(m, p)[i] ^ mask)) as u128,
            cityhash128_of(encoded_frame(m, p).subrange(16, encoded_frame(m, p).len() as int)),
        ),
{
    let f = encoded_frame(m, p);
    let x = f[i];
    let g = f.update(i, x ^ mask);
    lemma_encoded_frame_fields(m, p);
    assert((x ^ mask) != x) by (bit_vector)
        requires
            mask != 0u8,
    ;
    assert(g.subrange(16, g.len() as int) =~= f.subrange(16, f.len() as int));
    assert(g.subrange(17, 21) =~= f.subrange(17, 21));
    assert(g.subrange(21, 25) =~= f.subrange(21, 25));
    if stored_checksum(g) == stored_checksum(f) {
        let hg = le_value(g.subrange(0, 8));
        let lg = le_value(g.subrange(8, 16));
        let hf = le_value(f.subrange(0, 8));
        let lf = le_value(f.subrange(8, 16));
        lemma_le_value_bound(g.subrange(8, 16));
        lemma_le_value_bound(f.subrange(8, 16));
        lemma_pow256_values();
        assert(hg == hf && lg == lf) by (nonlinear_arith)
            requires
                hg * two64() + lg == hf * two64() + lf,
                lg < two64(),
                lf < two64(),
                two64() > 0,
        ;
        lemma_le_value_injective(g.subrange(0, 8), f.subrange(0, 8));
        lemma_le_value_injective(g.subrange(8, 16), f.subrange(8, 16));
        if i < 8 {
            assert(g.subrange(0, 8)[i] == f.subrange(0, 8)[i]);
        } else {
            assert(g.subrange(8, 16)[i - 8] == f.subrange(8, 16)[i - 8]);
        }
    }
}

/// `v` is what decoding the frame at the front of `s` with method `m` may give.
pub open spec fn frame_decodes_to(s: Seq<u8>, m: CompressionMethod, v: Seq<u8>) -> bool {
    &&& !(m is Uncompressed)
    &&& frame_well_formed(s, m)
    &&& decode_outcome(s, m, Ok(v))
}

/// A frame decodes to one payload at most.
proof fn lemma_frame_decodes_unique(s: Seq<u8>, m: CompressionMethod, a: Seq<u8>, b: Seq<u8>)
    requires
        !(m is Uncompressed),
        frame_decodes_to(s, m, a),
        frame_decodes_to(s, m, b),
    ensures
        a == b,
{
    lemma_frame_error_none(s, m);
}

/// Having found no bytes left in the current frame, the reader took the next
/// frame off `rest`; when that frame holds bytes, `k` of them were served.
pub open spec fn first_frame_served(
    rest: Seq<u8>,
    m: CompressionMethod,
    want: nat,
    k: nat,
    buf_before: Seq<u8>,
    buf_after: Seq<u8>,
    pending_after: Seq<u8>,
    rest_after: Seq<u8>,
) -> bool {
    forall|v: Seq<u8>|
        #![trigger frame_decodes_to(rest, m, v)]
        frame_decodes_to(rest, m, v) && v.len() > 0 ==> {
            &&& k == (if v.len() < want { v.len() } else { want })
            &&& buf_after == buf_before + v.subrange(0, k as int)
            &&& pending_after == v.subrange(k as int, v.len() as int)
            &&& rest_after == rest.subrange(stored_frame_len(rest) as int, rest.len() as int)
        }
}

proof fn lemma_decode_ok(s: Seq<u8>, m: CompressionMethod, r: Result<Seq<u8>, Error>)
    requires
        decode_outcome(s, m, r),
        r is Ok,
    ensures
        frame_decodes_to(s, m, r->Ok_0),
        stored_frame_len(s) >= 25,
        !(m is Uncompressed),
        frame_error(s, m) is None,
{
    lemma_frame_error_none(s, m);
}

/// The payload a reader starts with, or the error it could not start with.
pub open spec fn reader_result(r: Result<DecompressionReader, Error>) -> Result<Seq<u8>, Error> {
    match r {
        Ok(d) => Ok(d.pending()),
        Err(e) => Err(e),
    }
}

/// Whether the frame at the front of `rest` decodes to some bytes.
pub open spec fn next_frame_has_bytes(rest: Seq<u8>, m: CompressionMethod) -> bool {
    exists|v: Seq<u8>| #[trigger] frame_decodes_to(rest, m, v) && v.len() > 0
}

/// Serves the concatenated payloads of a stream of frames, one frame
/// decoded at a time.
pub struct DecompressionReader {
    mode: CompressionMethod,
    inner: ByteReader,
    decompressed: Vec<u8>,
    position: usize,
}

impl DecompressionReader {
    /// Decoded bytes of the current frame not yet served.
    pub closed spec fn pending(&self) -> Seq<u8> {
        if self.position <= self.decompressed@.len() {
            self.decompressed@.subrange(self.position as int, self.decompressed@.len() as int)
        } else {
            Seq::empty()
        }
    }

    /// Bytes of the stream after the current frame.
    pub closed spec fn rest(&self) -> Seq<u8> {
        self.inner@
    }

    /// The method every frame must carry.
    pub closed spec fn mode(&self) -> CompressionMethod {
        self.mode
    }

    /// A reader over `inner` that has decoded its first frame.
    pub fn new(mode: CompressionMethod, inner: ByteReader) -> (r: Result<DecompressionReader, Error>)
        ensures
            decode_outcome(inner@, mode, reader_result(r)),
            r matches Ok(d) ==> d.mode() == mode && d.rest() == inner@.subrange(stored_frame_len(inner@) as int, inner@.len() as int),
    {
        let mut inner = inner;
        let ghost s = inner@;
        let r = decompress_data(&mut inner, mode);
        match r {
            Ok(decompressed) => {
                proof {
                    lemma_decode_ok(s, mode, Ok(decompressed@));
                }
                let d = DecompressionReader { mode, inner, decompressed, position: 0 };
                assert(d.pending() =~= d.decompressed@);
                Ok(d)
            },
            Err(e) => Err(e),
        }
    }

    /// Appends up to `want` bytes of the stream to `buf` and returns how many.
    /// Bytes left in the current frame are served first; when there are none
    /// the next frame is decoded. `Ok(0)` for a non-zero request means the
    /// stream is exhausted. Errors from decoding a frame end the stream.
    pub fn read(&mut self, buf: &mut Vec<u8>, want: usize) -> (r: Result<usize, Error>)
        ensures
            final(self).mode() == old(self).mode(),
            want == 0 ==> r == Ok::<usize, Error>(0) && final(buf)@ == old(buf)@ && final(self).pending() == old(self).pending()
                && final(self).rest() == old(self).rest(),
            (want > 0 && old(self).pending().len() > 0) ==> ({
                let k = if old(self).pending().len() < want { old(self).pending().len() } else { want as nat };
                &&& r == Ok::<usize, Error>(k as usize)
                &&& final(buf)@ == old(buf)@ + old(self).pending().subrange(0, k as int)
                &&& final(self).pending() == old(self).pending().subrange(k as int, old(self).pending().len() as int)
                &&& final(self).rest() == old(self).rest()
            }),
            (want > 0 && old(self).pending().len() == 0 && old(self).rest().len() == 0) ==> r == Ok::<usize, Error>(0)
                && final(buf)@ == old(buf)@ && final(self).pending().len() == 0 && final(self).rest().len() == 0,
            r matches Ok(k) ==> k <= want && final(buf)@.len() == old(buf)@.len() + k
                && final(buf)@.subrange(0, old(buf)@.len() as int) == old(buf)@,
            (r matches Ok(k) && k == 0 && want > 0) ==> final(self).pending().len() == 0 && final(self).rest().len() == 0,
            r is Err ==> final(buf)@ == old(buf)@,
            (want > 0 && old(self).pending().len() == 0 && !(old(self).mode() is Uncompressed) && r is Ok)
                ==> first_frame_served(old(self).rest(), old(self).mode(), want as nat, r->Ok_0 as nat, old(buf)@, final(buf)@, final(self).pending(), final(self).rest()),
            (want > 0 && old(self).pending().len() == 0 && next_frame_has_bytes(old(self).rest(), old(self).mode())) ==> r is Ok,
            (want > 0 && old(self).pending().len() == 0 && old(self).rest().len() > 0 && !frame_well_formed(old(self).rest(), old(self).mode())) ==> r is Err,
    {
        if want == 0 {
            return Ok(0);
        }
        let ghost rest0 = self.inner@;
        let ghost pending0_empty = self.pending().len() == 0;
        let ghost mut first: Option<Seq<u8>> = None;
        loop
            invariant
                want > 0,
                self.mode() == old(self).mode(),
                buf@ == old(buf)@,
                old(self).pending().len() > 0 ==> self.pending() == old(self).pending() && self.rest() == old(self).rest(),
                old(self).pending().len() == 0 && old(self).rest().len() == 0 ==> self.pending().len() == 0 && self.rest().len() == 0,
                rest0 == old(self).rest(),
                pending0_empty == (old(self).pending().len() == 0),
                first is None && pending0_empty ==> self.pending().len() == 0 && self.rest() == rest0,
                first matches Some(f) ==> {
                    &&& pending0_empty
                    &&& !(self.mode is Uncompressed)
                    &&& frame_decodes_to(rest0, self.mode, f)
                    &&& forall|v: Seq<u8>|
                        #![trigger frame_decodes_to(rest0, self.mode, v)]
                        frame_decodes_to(rest0, self.mode, v) ==> v == f
                },
                (first is Some && first->Some_0.len() > 0) ==> {
                    &&& self.pending() == first->Some_0
                    &&& self.rest() == rest0.subrange(stored_frame_len(rest0) as int, rest0.len() as int)
                },
                self.mode == old(self).mode(),
            decreases self.rest().len(), self.pending().len(),
        {
            if self.position < self.decompressed.len() {
                let available = self.decompressed.len() - self.position;
                let to_serve = if available < want { available } else { want };
                let ghost pend = self.pending();
                let mut i: usize = 0;
                while i < to_serve
                    invariant
                        i <= to_serve,
                        to_serve <= available,
                        available == self.decompressed.len() - self.position,
                        self.position < self.decompressed.len(),
                        pend == self.decompressed@.subrange(self.position as int, self.decompressed@.len() as int),
                        buf@ == old(buf)@ + pend.subrange(0, i as int),
                    decreases to_serve - i,
                {
                    buf.push(self.decompressed[self.position + i]);
                    assert(pend.subrange(0, i + 1) =~= pend.subrange(0, i as int).push(pend[i as int]));
                    i = i + 1;
                }
                self.position = self.position + to_serve;
                assert(self.pending() =~= pend.subrange(to_serve as int, pend.len() as int));
                return Ok(to_serve);
            }
            if self.inner.remaining() == 0 {
                return Ok(0);
            }
            let ghost s = self.inner@;
            let r = decompress_data(&mut self.inner, self.mode);
            match r {
                Ok(v) => {
                    proof {
                        lemma_decode_ok(s, self.mode, Ok(v@));
                        if first is None && pending0_empty {
                            assert forall|w: Seq<u8>|
                                #![trigger frame_decodes_to(rest0, self.mode, w)]
                                frame_decodes_to(rest0, self.mode, w) implies w == v@ by {
                                lemma_frame_decodes_unique(rest0, self.mode, w, v@);
                            }
                            first = Some(v@);
                        }
                    }
                    self.decompressed = v;
                    self.position = 0;
                    proof {
                        assert(self.pending() =~= self.decompressed@);
                    }
                },
                Err(e) => {
                    return Err(e);
                },
            }
        }
    }
}

} // verus!
