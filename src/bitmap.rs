//! Null masks: Arrow's packed validity bits (1 = valid) expanded to
//! ClickHouse's byte-per-row null mask (1 = null), and written ahead of a
//! nullable column's values.

use crate::pool::{front_taken, released, tier_of, BufferPool, PooledBuffer, MAX_REQUEST};
use vstd::prelude::*;

verus! {

/// Whether bit `k` (0 = least significant) of `b` is set.
pub open spec fn bit_set(b: u8, k: int) -> bool {
    (b >> (k as u8)) & 1u8 == 1u8
}

/// The null mask of the first `len` rows: byte `i` is 1 where validity bit `i`
/// is clear, 0 where it is set.
pub open spec fn null_mask(bitmap: Seq<u8>, len: nat) -> Seq<u8> {
    Seq::new(len, |i: int| if bit_set(bitmap[i / 8], i % 8) { 0u8 } else { 1u8 })
}

/// `after` holds the null mask of `bitmap` in its first `len` bytes and
/// `before`'s bytes after that.
pub open spec fn expands_validity(bitmap: Seq<u8>, len: nat, before: Seq<u8>, after: Seq<u8>) -> bool {
    &&& after.len() == before.len()
    &&& len <= before.len()
    &&& after.subrange(0, len as int) == null_mask(bitmap, len)
    &&& after.subrange(len as int, after.len() as int) == before.subrange(len as int, before.len() as int)
}

/// Any two expansions of one bitmap write the same bytes.
pub proof fn lemma_expansions_agree(bitmap: Seq<u8>, len: nat, before: Seq<u8>, first: Seq<u8>, second: Seq<u8>)
    requires
        expands_validity(bitmap, len, before, first),
        expands_validity(bitmap, len, before, second),
    ensures
        first == second,
{
    assert(first =~= first.subrange(0, len as int) + first.subrange(len as int, first.len() as int));
    assert(second =~= second.subrange(0, len as int) + second.subrange(len as int, second.len() as int));
}

proof fn lemma_mask_bit(b: u8, k: u8)
    requires
        k < 8,
    ensures
        ((b & (1u8 << k)) == 0) == !bit_set(b, k as int),
{
    assert(((b & (1u8 << k)) == 0) == ((b >> k) & 1u8 != 1u8)) by (bit_vector)
        requires
            k < 8u8,
    ;
}

/// The null-mask byte for bit `k` of `b`.
fn null_byte(b: u8, k: u8) -> (r: u8)
    requires
        k < 8,
    ensures
        r == (if bit_set(b, k as int) { 0u8 } else { 1u8 }),
{
    proof {
        lemma_mask_bit(b, k);
    }
    if (b & (1u8 << k)) == 0 {
        1
    } else {
        0
    }
}

/// Writes the 8 null-mask bytes of `byte` at `offset`.
pub fn expand_byte_to_8(byte: u8, output: &mut [u8], offset: usize)
    requires
        offset + 8 <= old(output)@.len(),
    ensures
        final(output)@.len() == old(output)@.len(),
        forall|k: int| 0 <= k < 8 ==> final(output)@[offset + k] == (if bit_set(byte, k) { 0u8 } else { 1u8 }),
        forall|i: int| 0 <= i < old(output)@.len() && !(offset <= i < offset + 8) ==> final(output)@[i] == old(output)@[i],
{
    output[offset] = null_byte(byte, 0);
    output[offset + 1] = null_byte(byte, 1);
    output[offset + 2] = null_byte(byte, 2);
    output[offset + 3] = null_byte(byte, 3);
    output[offset + 4] = null_byte(byte, 4);
    output[offset + 5] = null_byte(byte, 5);
    output[offset + 6] = null_byte(byte, 6);
    output[offset + 7] = null_byte(byte, 7);
}

/// Rows `8 * b .. 8 * b + 8` of the mask come from bitmap byte `b`.
proof fn lemma_row_split(i: int, base: int, k: int)
    requires
        base % 8 == 0,
        base >= 0,
        0 <= k < 8,
        i == base + k,
    ensures
        i / 8 == base / 8,
        i % 8 == k,
{
}

/// Expands rows `from .. len` starting at a whole bitmap byte, one row at a time.
fn expand_tail(bitmap: &[u8], output: &mut [u8], from: usize, len: usize)
    requires
        from % 8 == 0,
        from <= len,
        len <= old(output)@.len(),
        bitmap@.len() * 8 >= len,
        forall|i: int| 0 <= i < from ==> old(output)@[i] == null_mask(bitmap@, len as nat)[i],
    ensures
        expands_validity(bitmap@, len as nat, old(output)@, final(output)@),
{
    let ghost before = output@;
    let mut row: usize = from;
    while row < len
        invariant
            from <= row <= len,
            len <= output@.len(),
            output@.len() == before.len(),
            bitmap@.len() * 8 >= len,
            forall|i: int| 0 <= i < row ==> output@[i] == null_mask(bitmap@, len as nat)[i],
            forall|i: int| len <= i < output@.len() ==> output@[i] == before[i],
        decreases len - row,
    {
        let byte = bitmap[row / 8];
        output[row] = null_byte(byte, (row % 8) as u8);
        row = row + 1;
    }
    assert(output@.subrange(0, len as int) =~= null_mask(bitmap@, len as nat));
    assert(output@.subrange(len as int, output@.len() as int) =~= before.subrange(len as int, before.len() as int));
}

/// Expands whole bitmap bytes `first .. last`, one byte (8 rows) at a time.
fn expand_whole_bytes(bitmap: &[u8], output: &mut [u8], first: usize, last: usize, len: usize)
    requires
        first <= last,
        last * 8 <= len,
        len <= old(output)@.len(),
        bitmap@.len() * 8 >= len,
        forall|i: int| 0 <= i < first * 8 ==> old(output)@[i] == null_mask(bitmap@, len as nat)[i],
    ensures
        final(output)@.len() == old(output)@.len(),
        forall|i: int| 0 <= i < last * 8 ==> final(output)@[i] == null_mask(bitmap@, len as nat)[i],
        forall|i: int| last * 8 <= i < old(output)@.len() ==> final(output)@[i] == old(output)@[i],
{
    let ghost before = output@;
    let mut b: usize = first;
    while b < last
        invariant
            first <= b <= last,
            last * 8 <= len,
            len <= output@.len(),
            output@.len() == before.len(),
            bitmap@.len() * 8 >= len,
            forall|i: int| 0 <= i < b * 8 ==> output@[i] == null_mask(bitmap@, len as nat)[i],
            forall|i: int| last * 8 <= i < output@.len() ==> output@[i] == before[i],
        decreases last - b,
    {
        let byte = bitmap[b];
        expand_byte_to_8(byte, output, b * 8);
        proof {
            assert forall|i: int| 0 <= i < (b + 1) * 8 implies output@[i] == null_mask(bitmap@, len as nat)[i] by {
                if i >= b * 8 {
                    lemma_row_split(i, (b * 8) as int, i - b * 8);
                }
            }
        }
        b = b + 1;
    }
}

/// Scalar expansion: whole bitmap bytes first, then the rows of the last,
/// partial byte.
pub fn expand_null_bitmap_scalar(bitmap: &[u8], output: &mut [u8], len: usize)
    requires
        old(output)@.len() >= len,
        bitmap@.len() * 8 >= len,
    ensures
        expands_validity(bitmap@, len as nat, old(output)@, final(output)@),
{
    let ghost before = output@;
    let full_bytes = len / 8;
    expand_whole_bytes(bitmap, output, 0, full_bytes, len);
    assert(output@.subrange(len as int, output@.len() as int) =~= before.subrange(len as int, before.len() as int));
    expand_tail(bitmap, output, full_bytes * 8, len);
}

/// Expansion in chunks of 32 rows (four bitmap bytes, unrolled so the compiler
/// can vectorize), then the remaining rows as in the scalar path.
pub fn expand_null_bitmap_chunked(bitmap: &[u8], output: &mut [u8], len: usize)
    requires
        old(output)@.len() >= len,
        bitmap@.len() * 8 >= len,
    ensures
        expands_validity(bitmap@, len as nat, old(output)@, final(output)@),
{
    let ghost before = output@;
    let full_chunks = len / 32;
    let mut chunk: usize = 0;
    while chunk < full_chunks
        invariant
            chunk <= full_chunks,
            full_chunks * 32 <= len,
            len <= output@.len(),
            output@.len() == before.len(),
            bitmap@.len() * 8 >= len,
            forall|i: int| 0 <= i < chunk * 32 ==> output@[i] == null_mask(bitmap@, len as nat)[i],
            forall|i: int| full_chunks * 32 <= i < output@.len() ==> output@[i] == before[i],
        decreases full_chunks - chunk,
    {
        let bitmap_offset = chunk * 4;
        expand_whole_bytes(bitmap, output, bitmap_offset, bitmap_offset + 4, len);
        chunk = chunk + 1;
    }
    let full_bytes = len / 8;
    expand_whole_bytes(bitmap, output, full_chunks * 4, full_bytes, len);
    assert(output@.subrange(len as int, output@.len() as int) =~= before.subrange(len as int, before.len() as int));
    expand_tail(bitmap, output, full_bytes * 8, len);
}

/// Expansion by lanes: each bitmap byte is tested against the 8 lane masks at
/// once, then the remaining rows as in the scalar path.
pub fn expand_null_bitmap_lanes(bitmap: &[u8], output: &mut [u8], len: usize)
    requires
        old(output)@.len() >= len,
        bitmap@.len() * 8 >= len,
    ensures
        expands_validity(bitmap@, len as nat, old(output)@, final(output)@),
{
    let ghost before = output@;
    let masks: [u8; 8] = [0x01, 0x02, 0x04, 0x08, 0x10, 0x20, 0x40, 0x80];
    proof {
        assert(1u8 << 0u8 == 0x01u8 && 1u8 << 1u8 == 0x02u8 && 1u8 << 2u8 == 0x04u8 && 1u8 << 3u8 == 0x08u8) by (bit_vector);
        assert(1u8 << 4u8 == 0x10u8 && 1u8 << 5u8 == 0x20u8 && 1u8 << 6u8 == 0x40u8 && 1u8 << 7u8 == 0x80u8) by (bit_vector);
        assert forall|k: u8| k < 8 implies masks@[k as int] == 1u8 << k by {
            if k == 0 {
            } else if k == 1 {
            } else if k == 2 {
            } else if k == 3 {
            } else if k == 4 {
            } else if k == 5 {
            } else if k == 6 {
            } else {
            }
        }
    }
    let full_bytes = len / 8;
    let mut b: usize = 0;
    while b < full_bytes
        invariant
            b <= full_bytes,
            full_bytes * 8 <= len,
            len <= output@.len(),
            output@.len() == before.len(),
            bitmap@.len() * 8 >= len,
            forall|k: u8| k < 8 ==> masks@[k as int] == 1u8 << k,
            forall|i: int| 0 <= i < b * 8 ==> output@[i] == null_mask(bitmap@, len as nat)[i],
            forall|i: int| full_bytes * 8 <= i < output@.len() ==> output@[i] == before[i],
        decreases full_bytes - b,
    {
        let byte = bitmap[b];
        let mut lane: usize = 0;
        while lane < 8
            invariant
                b < full_bytes,
                full_bytes * 8 <= len,
                len <= output@.len(),
                output@.len() == before.len(),
                bitmap@.len() * 8 >= len,
                byte == bitmap@[b as int],
                lane <= 8,
                forall|k: u8| k < 8 ==> masks@[k as int] == 1u8 << k,
                forall|i: int| 0 <= i < b * 8 + lane ==> output@[i] == null_mask(bitmap@, len as nat)[i],
                forall|i: int| full_bytes * 8 <= i < output@.len() ==> output@[i] == before[i],
            decreases 8 - lane,
        {
            let m = masks[lane];
            proof {
                assert(masks@[(lane as u8) as int] == 1u8 << (lane as u8));
                assert(m == 1u8 << (lane as u8));
                lemma_mask_bit(byte, lane as u8);
                lemma_row_split((b * 8 + lane) as int, (b * 8) as int, lane as int);
                assert((b * 8) as int / 8 == b as int);
            }
            let is_zero = (byte & m) == 0;
            output[b * 8 + lane] = if is_zero { 1 } else { 0 };
            lane = lane + 1;
        }
        b = b + 1;
    }
    assert(output@.subrange(len as int, output@.len() as int) =~= before.subrange(len as int, before.len() as int));
    expand_tail(bitmap, output, full_bytes * 8, len);
}

/// Expands the validity bits of `len` rows into a null mask in `output`
/// (1 = null). Bytes of `output` past `len` are left as they were.
pub fn expand_null_bitmap(bitmap: &[u8], output: &mut [u8], len: usize)
    requires
        old(output)@.len() >= len,
        bitmap@.len() * 8 >= len,
    ensures
        expands_validity(bitmap@, len as nat, old(output)@, final(output)@),
{
    expand_null_bitmap_chunked(bitmap, output, len)
}

/// The ClickHouse column types the null-mask writer distinguishes.
#[derive(Debug)]
pub enum Type {
    Int8,
    Int16,
    Int32,
    Int64,
    UInt8,
    UInt16,
    UInt32,
    UInt64,
    Float32,
    Float64,
    String,
    Array(Box<Type>),
    MapOf(Box<Type>, Box<Type>),
    Nullable(Box<Type>),
}

/// The type inside one `Nullable` wrapper.
pub open spec fn strip_null_spec(t: Type) -> Type {
    match t {
        Type::Nullable(inner) => *inner,
        other => other,
    }
}

/// Containers (arrays, maps) carry no null mask, nullable or not.
pub open spec fn writes_no_mask(t: Type) -> bool {
    strip_null_spec(t) is Array || strip_null_spec(t) is MapOf
}

impl Type {
    /// The type inside one `Nullable` wrapper.
    pub fn strip_null(&self) -> (r: &Type)
        ensures
            *r == strip_null_spec(*self),
    {
        match self {
            Type::Nullable(inner) => inner,
            _ => self,
        }
    }

    /// Whether the type is a container that carries no null mask.
    pub fn is_container(&self) -> (r: bool)
        ensures
            r == writes_no_mask(*self),
    {
        match self.strip_null() {
            Type::Array(_) => true,
            Type::MapOf(_, _) => true,
            _ => false,
        }
    }
}

/// The null information of an Arrow array: its length and, when it has
/// nulls, its packed validity bits (1 = valid).
pub struct ArrayNulls {
    pub len: usize,
    pub validity: Option<Vec<u8>>,
}

/// The validity bits, when present, cover every row.
pub open spec fn nulls_well_formed(a: ArrayNulls) -> bool {
    a.validity matches Some(v) ==> v@.len() * 8 >= a.len
}

/// The null mask of an array: all zeros when it has no validity bits.
pub open spec fn array_null_mask(a: ArrayNulls) -> Seq<u8> {
    match a.validity {
        Some(v) => null_mask(v@, a.len as nat),
        None => Seq::new(a.len as nat, |i: int| 0u8),
    }
}

/// Per-column serializer state: the pool null masks are built in.
pub struct SerializerState {
    pub pool: BufferPool,
}

impl Default for SerializerState {
    fn default() -> (r: Self)
        ensures
            r.pool@.len() == 5,
            forall|b: int| 0 <= b < 5 ==> r.pool@[b].len() == 0,
    {
        SerializerState { pool: BufferPool::new() }
    }
}

/// The pool lent a buffer for a mask of `len` bytes and got `mask` back.
pub open spec fn mask_buffer_cycled(before: Seq<Seq<Seq<u8>>>, len: nat, mask: Seq<u8>, after: Seq<Seq<Seq<u8>>>) -> bool {
    exists|lent: Seq<Seq<Seq<u8>>>| front_taken(before, tier_of(len), lent) && released(lent, mask, after)
}

/// The null mask of `array` in a buffer taken from `pool`.
pub fn prepare_null_bitmap(pool: &mut BufferPool, array: &ArrayNulls) -> (r: PooledBuffer)
    requires
        nulls_well_formed(*array),
        array.len <= MAX_REQUEST,
    ensures
        r.has_buffer(),
        r@ == array_null_mask(*array),
        front_taken(old(pool)@, tier_of(array.len as nat), final(pool)@),
{
    let len = array.len;
    let mut null_mask = PooledBuffer::acquire(pool, len);
    let buf = null_mask.buffer_mut();
    let mut i: usize = 0;
    while i < len
        invariant
            i <= len,
            buf@ == Seq::new(i as nat, |k: int| 0u8),
        decreases len - i,
    {
        buf.push(0u8);
        assert(buf@ =~= Seq::new((i + 1) as nat, |k: int| 0u8));
        i = i + 1;
    }
    match &array.validity {
        Some(bits) => {
            let ghost zeros = buf@;
            expand_null_bitmap(bits.as_slice(), buf.as_mut_slice(), len);
            assert(buf@ =~= buf@.subrange(0, len as int));
        },
        None => {
            assert(buf@ =~= array_null_mask(*array));
        },
    }
    null_mask
}

/// Appends the null mask of `array` to `writer` (1 = null, 0 = valid),
/// building it in a buffer lent by the state's pool and handed back after.
/// Containers write nothing, and neither does an empty array.
pub fn serialize_nulls(type_hint: &Type, writer: &mut Vec<u8>, array: &ArrayNulls, state: &mut SerializerState)
    requires
        nulls_well_formed(*array),
        array.len <= MAX_REQUEST,
    ensures
        writes_no_mask(*type_hint) ==> final(writer)@ == old(writer)@,
        !writes_no_mask(*type_hint) ==> final(writer)@ == old(writer)@ + array_null_mask(*array),
        (writes_no_mask(*type_hint) || array.len == 0) ==> final(state).pool@ == old(state).pool@,
        (!writes_no_mask(*type_hint) && array.len > 0) ==> mask_buffer_cycled(old(state).pool@, array.len as nat, array_null_mask(*array), final(state).pool@),
{
    if type_hint.is_container() {
        return;
    }
    if array.len == 0 {
        assert(array_null_mask(*array) =~= Seq::empty());
        assert(old(writer)@ + array_null_mask(*array) =~= old(writer)@);
        return;
    }
    let ghost before = state.pool@;
    let null_mask = prepare_null_bitmap(&mut state.pool, array);
    let ghost lent = state.pool@;
    append_bytes(writer, null_mask.buffer().as_slice());
    let ghost mask = null_mask@;
    null_mask.release(&mut state.pool);
    assert(front_taken(before, tier_of(array.len as nat), lent) && released(lent, mask, state.pool@));
}

/// Appends the null mask of `array` and then `values_bytes` to `writer`, the
/// two back to back; the mask is built in a buffer lent by the state's pool.
/// Containers write only the values; an empty array writes nothing.
pub fn write_nullable_vectored(type_hint: &Type, writer: &mut Vec<u8>, array: &ArrayNulls, values_bytes: &[u8], state: &mut SerializerState)
    requires
        nulls_well_formed(*array),
        array.len <= MAX_REQUEST,
    ensures
        writes_no_mask(*type_hint) ==> final(writer)@ == old(writer)@ + values_bytes@,
        !writes_no_mask(*type_hint) && array.len == 0 ==> final(writer)@ == old(writer)@,
        !writes_no_mask(*type_hint) && array.len > 0 ==> final(writer)@ == old(writer)@ + array_null_mask(*array) + values_bytes@,
        (writes_no_mask(*type_hint) || array.len == 0) ==> final(state).pool@ == old(state).pool@,
        (!writes_no_mask(*type_hint) && array.len > 0) ==> mask_buffer_cycled(old(state).pool@, array.len as nat, array_null_mask(*array), final(state).pool@),
{
    if type_hint.is_container() {
        append_bytes(writer, values_bytes);
        return;
    }
    if array.len == 0 {
        return;
    }
    let ghost before = state.pool@;
    let null_mask = prepare_null_bitmap(&mut state.pool, array);
    let ghost lent = state.pool@;
    append_bytes(writer, null_mask.buffer().as_slice());
    append_bytes(writer, values_bytes);
    let ghost mask = null_mask@;
    null_mask.release(&mut state.pool);
    assert(front_taken(before, tier_of(array.len as nat), lent) && released(lent, mask, state.pool@));
}

fn append_bytes(out: &mut Vec<u8>, src: &[u8])
    ensures
        final(out)@ == old(out)@ + src@,
{
    let mut i: usize = 0;
    while i < src.len()
        invariant
            i <= src@.len(),
            out@ == old(out)@ + src@.subrange(0, i as int),
        decreases src@.len() - i,
    {
        out.push(src[i]);
        assert(src@.subrange(0, i + 1) =~= src@.subrange(0, i as int).push(src@[i as int]));
        i = i + 1;
    }
    assert(src@.subrange(0, src@.len() as int) =~= src@);
}

} // verus!
