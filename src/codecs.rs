//! The outside compression and hashing routines the frame codec calls, with
//! what the codec relies on from each, and the hex form of checksums.

use lz4_flex::block::DecompressError;
use std::io::Error as IoError;
use vstd::prelude::*;
use vstd::string::StringExecFns;

verus! {

#[verifier::external_type_specification]
#[verifier::external_body]
pub struct ExDecompressError(lz4_flex::block::DecompressError);

#[verifier::external_type_specification]
#[verifier::external_body]
pub struct ExIoError(std::io::Error);

/// The CityHash v1.0.2 128-bit hash of a byte string.
pub uninterp spec fn cityhash128_of(data: Seq<u8>) -> u128;

/// Relies on `cityhash_rs::cityhash_102_128`: a pure function of the bytes.
#[verifier::external_body]
pub(crate) fn cityhash128(data: &[u8]) -> (r: u128)
    ensures
        r == cityhash128_of(data@),
{
    cityhash_rs::cityhash_102_128(data)
}

/// The LZ4 block-format encoding of a byte string.
pub uninterp spec fn lz4_block_of(data: Seq<u8>) -> Seq<u8>;

/// Relies on `lz4_flex::compress`: a pure function of the input bytes, never
/// longer than `get_maximum_output_size` (20 bytes plus 110% of the input).
#[verifier::external_body]
pub(crate) fn lz4_compress(data: &[u8]) -> (r: Vec<u8>)
    requires
        data@.len() <= usize::MAX / 110,
    ensures
        r@ == lz4_block_of(data@),
        r@.len() <= 20 + data@.len() * 110 / 100,
{
    lz4_flex::compress(data)
}

/// What LZ4 block decoding gives for a block and an output size, `None` where
/// the block is malformed or decodes to more than the size.
pub uninterp spec fn lz4_decoded(block: Seq<u8>, size: nat) -> Option<Seq<u8>>;

/// Relies on `lz4_flex::decompress` (safe decoder): a pure function of its
/// arguments, which inverts `lz4_flex::compress` when given the uncompressed length.
#[verifier::external_body]
pub(crate) fn lz4_decompress(block: &[u8], size: usize) -> (r: Result<Vec<u8>, DecompressError>)
    ensures
        r matches Ok(v) ==> lz4_decoded(block@, size as nat) == Some(v@),
        r is Err ==> lz4_decoded(block@, size as nat) is None,
        forall|p: Seq<u8>| block@ == lz4_block_of(p) && size == p.len() ==> r is Ok && r->Ok_0@ == p,
{
    lz4_flex::decompress(block, size)
}

/// The zstd frame that compression at a given level gives for a byte string.
pub uninterp spec fn zstd_block_of(data: Seq<u8>, level: int) -> Seq<u8>;

/// Relies on `zstd::bulk::compress`: its output is a function of the input
/// and the level and fits the `ZSTD_compressBound` buffer it is written into;
/// with a level zstd accepts (1 to 22) it succeeds, as contexts that cannot be
/// allocated panic instead of returning an error.
#[verifier::external_body]
pub(crate) fn zstd_compress(data: &[u8], level: i32) -> (r: Result<Vec<u8>, IoError>)
    ensures
        r matches Ok(v) ==> v@ == zstd_block_of(data@, level as int),
        r matches Ok(v) ==> v@.len() <= data@.len() + data@.len() / 256 + 64,
        1 <= level <= 22 ==> r is Ok,
{
    zstd::bulk::compress(data, level)
}

/// What zstd decoding gives for a frame and an output capacity, `None` where
/// the frame is malformed or decodes to more than the capacity.
pub uninterp spec fn zstd_decoded(block: Seq<u8>, capacity: nat) -> Option<Seq<u8>>;

/// Relies on `zstd::bulk::decompress`: a function of its arguments (contexts
/// that cannot be allocated panic rather than fail), which inverts
/// `zstd::bulk::compress` when the capacity is the uncompressed length.
#[verifier::external_body]
pub(crate) fn zstd_decompress(block: &[u8], capacity: usize) -> (r: Result<Vec<u8>, IoError>)
    ensures
        r matches Ok(v) ==> zstd_decoded(block@, capacity as nat) == Some(v@),
        r is Err ==> zstd_decoded(block@, capacity as nat) is None,
        forall|p: Seq<u8>, level: int| block@ == zstd_block_of(p, level) && capacity == p.len() ==> r is Ok && r->Ok_0@ == p,
{
    zstd::bulk::decompress(block, capacity)
}

/// Relies on `<lz4_flex::block::DecompressError as Display>`: its message.
#[verifier::external_body]
pub(crate) fn lz4_error_text(e: &lz4_flex::block::DecompressError) -> String {
    e.to_string()
}

/// Relies on `<std::io::Error as Display>`: its message.
#[verifier::external_body]
pub(crate) fn io_error_text(e: &std::io::Error) -> String {
    e.to_string()
}

/// The 32 lower-case hex digits of a `u128`, most significant first.
pub open spec fn hex32(v: u128) -> Seq<char> {
    Seq::new(32, |i: int| hex_digit((v as nat / pow16((31 - i) as nat)) % 16))
}

pub open spec fn pow16(k: nat) -> nat
    decreases k,
{
    if k == 0 {
        1
    } else {
        16 * pow16((k - 1) as nat)
    }
}

/// The lower-case hex digit of `d < 16`.
pub open spec fn hex_digit(d: nat) -> char {
    "0123456789abcdef"@[d as int]
}

/// The hex digit of `d` as a one-character string.
fn hex_digit_str(d: u128) -> (r: &'static str)
    requires
        d < 16,
    ensures
        r@ == seq![hex_digit(d as nat)],
{
    proof {
        reveal_strlit("0123456789abcdef");
        reveal_strlit("0");
        reveal_strlit("1");
        reveal_strlit("2");
        reveal_strlit("3");
        reveal_strlit("4");
        reveal_strlit("5");
        reveal_strlit("6");
        reveal_strlit("7");
        reveal_strlit("8");
        reveal_strlit("9");
        reveal_strlit("a");
        reveal_strlit("b");
        reveal_strlit("c");
        reveal_strlit("d");
        reveal_strlit("e");
        reveal_strlit("f");
    }
    if d == 0 {
        "0"
    } else if d == 1 {
        "1"
    } else if d == 2 {
        "2"
    } else if d == 3 {
        "3"
    } else if d == 4 {
        "4"
    } else if d == 5 {
        "5"
    } else if d == 6 {
        "6"
    } else if d == 7 {
        "7"
    } else if d == 8 {
        "8"
    } else if d == 9 {
        "9"
    } else if d == 10 {
        "a"
    } else if d == 11 {
        "b"
    } else if d == 12 {
        "c"
    } else if d == 13 {
        "d"
    } else if d == 14 {
        "e"
    } else {
        "f"
    }
}

proof fn lemma_pow16_step(k: nat)
    ensures
        pow16(k + 1) == 16 * pow16(k),
        pow16(k) >= 1,
    decreases k,
{
    if k > 0 {
        lemma_pow16_step((k - 1) as nat);
    }
}

/// The 32 zero-padded lower-case hex digits of `v`.
pub(crate) fn hex128(v: u128) -> (r: String)
    ensures
        r@ == hex32(v),
{
    let mut out = String::new();
    let mut i: usize = 0;
    let mut scale: u128 = 1;
    let mut k: usize = 0;
    while k < 31
        invariant
            k <= 31,
            scale as nat == pow16(k as nat),
        decreases 31 - k,
    {
        proof {
            lemma_pow16_step(k as nat);
            lemma_pow16_bound(k as nat + 1);
        }
        scale = scale * 16;
        k = k + 1;
    }
    while i < 32
        invariant
            i <= 32,
            out@ == hex32(v).subrange(0, i as int),
            i < 32 ==> scale as nat == pow16((31 - i) as nat),
        decreases 32 - i,
    {
        proof {
            lemma_pow16_step((31 - i) as nat);
        }
        let d = (v / scale) % 16;
        out = out.concat(hex_digit_str(d));
        assert(out@ =~= hex32(v).subrange(0, i + 1));
        if i < 31 {
            proof {
                lemma_pow16_step((30 - i) as nat);
            }
            scale = scale / 16;
        }
        i = i + 1;
    }
    assert(out@ =~= hex32(v));
    out
}

proof fn lemma_pow16_bound(k: nat)
    requires
        k <= 31,
    ensures
        pow16(k) <= 0x1000_0000_0000_0000_0000_0000_0000_0000nat,
    decreases 31 - k,
{
    if k < 31 {
        lemma_pow16_bound(k + 1);
        lemma_pow16_step(k);
    } else {
        reveal_with_fuel(pow16, 32);
    }
}

} // verus!
