//! Sparse columns: only the non-default values travel, preceded by a varint
//! stream of group sizes. Each group size counts the defaults before the next
//! non-default value; the last one carries the end-of-granule flag (bit 62) and
//! counts the trailing defaults. `[0, 0, 5, 0, 3, 0, 0, 0]` travels as groups
//! `[2, 1, 3 | END]` and values `[5, 3]`.

use crate::error::Error;
use crate::primitives::{
    lemma_stream_of_encodings,
    varint_first,
    varint_stream,
    varints_concat,
    ByteReader,
};
use vstd::prelude::*;
use vstd::string::StringExecFns;

verus! {

/// End-of-granule marker (bit 62): set on the last group of a granule.
pub const END_OF_GRANULE_FLAG: u64 = 0x4000_0000_0000_0000;

/// State carried between successive reads of one sparse stream.
#[derive(Debug, Clone, Copy, PartialEq, Eq, Structural)]
pub struct SparseDeserializeState {
    /// Trailing defaults of the last granule that fell past the requested rows.
    pub num_trailing_defaults: u64,
    /// A non-default value fell past the requested rows.
    pub has_value_after_defaults: bool,
}

impl Default for SparseDeserializeState {
    fn default() -> (r: Self)
        ensures
            r.num_trailing_defaults == 0,
            !r.has_value_after_defaults,
    {
        SparseDeserializeState { num_trailing_defaults: 0, has_value_after_defaults: false }
    }
}

/// Whether a group carries the end-of-granule flag.
pub open spec fn is_end_of_granule(g: u64) -> bool {
    (g / 0x4000_0000_0000_0000) % 2 == 1
}

/// The number of defaults a group counts.
pub open spec fn group_run(g: u64) -> nat {
    if is_end_of_granule(g) {
        (g - 0x4000_0000_0000_0000) as nat
    } else {
        g as nat
    }
}

/// A scan over groups: positions recorded so far, the next row, and whether a
/// value fell past the window.
pub type Scan = (Seq<int>, int, bool);

/// What the carried state contributes before the first group is read.
pub open spec fn scan_start(state: SparseDeserializeState, rows: nat) -> Scan {
    let pos = state.num_trailing_defaults as int;
    if state.has_value_after_defaults {
        (if pos < rows { seq![pos] } else { Seq::empty() }, pos + 1, false)
    } else {
        (Seq::empty(), pos, false)
    }
}

/// One group that is not the last: skip its defaults, then place a value.
pub open spec fn scan_step(acc: Scan, g: u64, rows: nat) -> Scan {
    let q = acc.1 + group_run(g);
    if q < rows {
        (acc.0.push(q), q + 1, acc.2)
    } else {
        (acc.0, q, true)
    }
}

pub open spec fn scan_groups(acc: Scan, gs: Seq<u64>, rows: nat) -> Scan
    decreases gs.len(),
{
    if gs.len() == 0 {
        acc
    } else {
        scan_step(scan_groups(acc, gs.drop_last(), rows), gs.last(), rows)
    }
}

/// `gs` is one granule: flagged last group, no flag before it.
pub open spec fn granule_complete(gs: Seq<u64>) -> bool {
    &&& gs.len() >= 1
    &&& is_end_of_granule(gs.last())
    &&& forall|j: int| 0 <= j < gs.len() - 1 ==> !is_end_of_granule(#[trigger] gs[j])
}

/// The scan over all groups of a granule but the last.
pub open spec fn granule_scan(state: SparseDeserializeState, rows: nat, gs: Seq<u64>) -> Scan {
    scan_groups(scan_start(state, rows), gs.drop_last(), rows)
}

/// The row count the granule ends at.
pub open spec fn granule_end(state: SparseDeserializeState, rows: nat, gs: Seq<u64>) -> int {
    granule_scan(state, rows, gs).1 + group_run(gs.last())
}

/// The carried state after reading a granule.
pub open spec fn state_after(state: SparseDeserializeState, rows: nat, gs: Seq<u64>) -> SparseDeserializeState {
    let end = granule_end(state, rows, gs);
    SparseDeserializeState {
        num_trailing_defaults: if end > rows { (end - rows) as u64 } else { 0 },
        has_value_after_defaults: granule_scan(state, rows, gs).2,
    }
}

/// Reading `k` varints off `s` with carried state `state` and window `rows`
/// completes one granule, records `positions`, leaves `state2` and `rest`.
pub open spec fn granule_read(
    s: Seq<u8>,
    state: SparseDeserializeState,
    rows: nat,
    k: nat,
    positions: Seq<int>,
    state2: SparseDeserializeState,
    rest: Seq<u8>,
) -> bool {
    varint_stream(s, k) matches Some((gs, n)) && {
        &&& granule_complete(gs)
        &&& positions == granule_scan(state, rows, gs).0
        &&& state2 == state_after(state, rows, gs)
        &&& granule_end(state, rows, gs) <= u64::MAX
        &&& rest == s.subrange(n as int, s.len() as int)
    }
}

/// Some number of varints off `s` completes a granule as `granule_read` says.
pub open spec fn granule_was_read(
    s: Seq<u8>,
    state: SparseDeserializeState,
    rows: nat,
    positions: Seq<int>,
    state2: SparseDeserializeState,
    rest: Seq<u8>,
) -> bool {
    exists|k: nat| granule_read(s, state, rows, k, positions, state2, rest)
}

/// The first `k` varints of `s` form a complete granule whose row count fits
/// in a `u64` given the carried state.
pub open spec fn granule_available(s: Seq<u8>, state: SparseDeserializeState, rows: nat, k: nat) -> bool {
    varint_stream(s, k) matches Some((gs, n)) && granule_complete(gs) && granule_end(state, rows, gs) <= u64::MAX
}

/// Some prefix of `s` is such a granule.
pub open spec fn some_granule_available(s: Seq<u8>, state: SparseDeserializeState, rows: nat) -> bool {
    exists|k: nat| granule_available(s, state, rows, k)
}

proof fn lemma_stream_len(s: Seq<u8>, k: nat)
    requires
        varint_stream(s, k) is Some,
    ensures
        varint_stream(s, k)->Some_0.0.len() == k,
    decreases k,
{
    if k > 0 {
        lemma_stream_len(s, (k - 1) as nat);
    }
}

/// A prefix of a readable varint stream is readable and reads as a prefix.
proof fn lemma_stream_prefix(s: Seq<u8>, k: nat, j: nat)
    requires
        j <= k,
        varint_stream(s, k) is Some,
    ensures
        varint_stream(s, j) is Some,
        varint_stream(s, j)->Some_0.0 == varint_stream(s, k)->Some_0.0.subrange(0, j as int),
    decreases k,
{
    lemma_stream_len(s, k);
    if j < k {
        lemma_stream_prefix(s, (k - 1) as nat, j);
        lemma_stream_len(s, (k - 1) as nat);
        let prev = varint_stream(s, (k - 1) as nat)->Some_0.0;
        let full = varint_stream(s, k)->Some_0.0;
        assert(full.subrange(0, k - 1) =~= prev);
        assert(prev.subrange(0, j as int) =~= full.subrange(0, j as int));
    } else {
        assert(varint_stream(s, k)->Some_0.0.subrange(0, j as int) =~= varint_stream(s, k)->Some_0.0);
    }
}

/// The scan only moves forward: a prefix of the groups ends no later.
proof fn lemma_scan_monotone(acc: Scan, gs: Seq<u64>, j: int, rows: nat)
    requires
        0 <= j <= gs.len(),
    ensures
        scan_groups(acc, gs.subrange(0, j), rows).1 <= scan_groups(acc, gs, rows).1,
        acc.1 <= scan_groups(acc, gs, rows).1,
    decreases gs.len(),
{
    if gs.len() > 0 {
        if j < gs.len() {
            lemma_scan_monotone(acc, gs.drop_last(), j, rows);
            assert(gs.drop_last().subrange(0, j) =~= gs.subrange(0, j));
        } else {
            lemma_scan_monotone(acc, gs.drop_last(), 0, rows);
            assert(gs.subrange(0, j) =~= gs);
        }
    } else {
        assert(gs.subrange(0, j) =~= gs);
    }
}

pub open spec fn positions_view(v: Seq<usize>) -> Seq<int> {
    v.map_values(|p: usize| p as int)
}

proof fn lemma_flag_bits(g: u64)
    ensures
        ((g & END_OF_GRANULE_FLAG) != 0) == ((g / 0x4000_0000_0000_0000) % 2 == 1),
        (g & END_OF_GRANULE_FLAG) != 0 ==> (g & !END_OF_GRANULE_FLAG) == g - 0x4000_0000_0000_0000,
        (g & END_OF_GRANULE_FLAG) == 0 ==> (g & !END_OF_GRANULE_FLAG) == g,
{
    assert(((g & 0x4000_0000_0000_0000u64) != 0) == ((g / 0x4000_0000_0000_0000u64) % 2 == 1)) by (bit_vector);
    assert((g & 0x4000_0000_0000_0000u64) != 0 ==> (g & !0x4000_0000_0000_0000u64) == g - 0x4000_0000_0000_0000u64) by (bit_vector);
    assert((g & 0x4000_0000_0000_0000u64) == 0 ==> (g & !0x4000_0000_0000_0000u64) == g) by (bit_vector);
}

/// Whether a group carries the end-of-granule flag, i.e. closes its granule.
pub fn is_end_of_granule_group(g: u64) -> (r: bool)
    ensures
        r == is_end_of_granule(g),
{
    proof {
        lemma_flag_bits(g);
    }
    (g & END_OF_GRANULE_FLAG) != 0
}

fn overflow_error() -> (e: Error)
    ensures
        e is Protocol,
{
    Error::Protocol(String::from_str("Sparse offsets exceed the row range"))
}

/// Reads the group sizes of one granule and returns the positions of its
/// non-default values that fall below `num_rows`. It always reads up to the
/// end-of-granule group, so that the stream stays aligned for the next column;
/// what falls past `num_rows` is left in `state` for the next read.
pub fn read_sparse_offsets_sync(reader: &mut ByteReader, num_rows: usize, state: &mut SparseDeserializeState) -> (r: Result<Vec<usize>, Error>)
    ensures
        r matches Ok(ps) ==> granule_was_read(old(reader)@, *old(state), num_rows as nat, positions_view(ps@), *final(state), final(reader)@),
        r is Err ==> r->Err_0 is Protocol,
        some_granule_available(old(reader)@, *old(state), num_rows as nat) ==> r is Ok,
{
    let ghost s0 = reader@;
    let ghost st0 = *state;
    let ghost rows = num_rows as nat;
    let ghost target: Option<nat> = if some_granule_available(s0, st0, rows) {
        Some(choose|k: nat| granule_available(s0, st0, rows, k))
    } else {
        None
    };
    proof {
        if let Some(k) = target {
            let g = varint_stream(s0, k)->Some_0.0;
            lemma_stream_len(s0, k);
            lemma_scan_monotone(scan_start(st0, rows), g.drop_last(), 0, rows);
        }
    }
    let mut offsets: Vec<usize> = Vec::new();
    let mut position: u64 = state.num_trailing_defaults;
    state.num_trailing_defaults = 0;
    if state.has_value_after_defaults {
        if position < num_rows as u64 {
            offsets.push(position as usize);
        }
        if position == u64::MAX {
            assert(target is None);
            return Err(overflow_error());
        }
        position = position + 1;
        state.has_value_after_defaults = false;
    }
    let ghost mut gs: Seq<u64> = Seq::empty();
    let ghost mut consumed: nat = 0;
    assert(positions_view(offsets@) =~= scan_start(st0, rows).0);
    assert(s0.subrange(0, s0.len() as int) =~= s0);
    loop
        invariant
            varint_stream(s0, gs.len()) == Some((gs, consumed)),
            consumed <= s0.len(),
            reader@ == s0.subrange(consumed as int, s0.len() as int),
            forall|j: int| 0 <= j < gs.len() ==> !is_end_of_granule(#[trigger] gs[j]),
            scan_groups(scan_start(st0, rows), gs, rows) == (positions_view(offsets@), position as int, state.has_value_after_defaults),
            state.num_trailing_defaults == 0,
            rows == num_rows as nat,
            s0 == old(reader)@,
            st0 == *old(state),
            target == (if some_granule_available(s0, st0, rows) {
                Some(choose|k: nat| granule_available(s0, st0, rows, k))
            } else {
                None::<nat>
            }),
            target matches Some(k) ==> granule_available(s0, st0, rows, k) && gs.len() < k
                && gs == varint_stream(s0, k)->Some_0.0.subrange(0, gs.len() as int),
        decreases reader@.len(),
    {
        let ghost before = reader@;
        proof {
            if let Some(k) = target {
                lemma_stream_prefix(s0, k, (gs.len() + 1) as nat);
            }
        }
        let g = match reader.try_get_var_uint() {
            Ok(v) => v,
            Err(e) => {
                return Err(e);
            },
        };
        let ghost n = varint_first(before)->Some_0.1;
        proof {
            lemma_flag_bits(g);
            assert(varint_stream(s0, gs.len() + 1) == Some((gs.push(g), consumed + n)));
            assert(reader@ =~= s0.subrange((consumed + n) as int, s0.len() as int));
        }
        let is_end = (g & END_OF_GRANULE_FLAG) != 0;
        let run = g & !END_OF_GRANULE_FLAG;
        proof {
            if let Some(k) = target {
                let full = varint_stream(s0, k)->Some_0.0;
                lemma_stream_len(s0, k);
                assert(g == full[gs.len() as int]);
                let acc0 = scan_start(st0, rows);
                if gs.len() + 1 < k {
                    assert(!is_end_of_granule(full[gs.len() as int]));
                    assert(full.subrange(0, (gs.len() + 1) as int).drop_last() =~= gs);
                    assert(full.subrange(0, (gs.len() + 1) as int) =~= gs.push(g));
                    lemma_scan_monotone(acc0, full.drop_last(), (gs.len() + 1) as int, rows);
                    assert(full.drop_last().subrange(0, (gs.len() + 1) as int) =~= gs.push(g));
                } else {
                    assert(gs =~= full.drop_last());
                }
            }
        }
        let moved = position.checked_add(run);
        if moved.is_none() {
            assert(target is None);
            return Err(overflow_error());
        }
        position = moved.unwrap();
        let ghost gs2 = gs.push(g);
        if is_end {
            if position > num_rows as u64 {
                state.num_trailing_defaults = position - num_rows as u64;
            }
            proof {
                assert(gs2.drop_last() =~= gs);
                assert(granule_complete(gs2));
                assert(varint_stream(s0, gs2.len()) == Some((gs2, (consumed + n) as nat)));
                assert(granule_end(st0, rows, gs2) == position as int);
                assert(positions_view(offsets@) == granule_scan(st0, rows, gs2).0);
                assert(*state == state_after(st0, rows, gs2));
                assert(reader@ == s0.subrange((consumed + n) as int, s0.len() as int));
                assert(granule_read(s0, st0, rows, gs2.len(), positions_view(offsets@), *state, reader@));
                assert(granule_was_read(s0, st0, rows, positions_view(offsets@), *state, reader@));
            }
            return Ok(offsets);
        }
        if position < num_rows as u64 {
            offsets.push(position as usize);
            position = position + 1;
        } else {
            state.has_value_after_defaults = true;
        }
        proof {
            assert(gs2.drop_last() =~= gs);
            assert(positions_view(offsets@) =~= scan_groups(scan_start(st0, rows), gs2, rows).0);
            if let Some(k) = target {
                let full = varint_stream(s0, k)->Some_0.0;
                assert(gs2 =~= full.subrange(0, gs2.len() as int));
            }
            gs = gs2;
            consumed = consumed + n;
        }
    }
}

/// The row after the last position, 0 when there is none.
pub open spec fn next_row(ps: Seq<int>) -> int {
    if ps.len() == 0 {
        0
    } else {
        ps.last() + 1
    }
}

/// The groups that place values at `ps`: defaults skipped before each value.
pub open spec fn value_groups(ps: Seq<int>) -> Seq<u64>
    decreases ps.len(),
{
    if ps.len() == 0 {
        Seq::empty()
    } else {
        value_groups(ps.drop_last()).push((ps.last() - next_row(ps.drop_last())) as u64)
    }
}

/// The groups a writer emits for a granule of `rows` rows whose non-default
/// values stand at `ps`: one group per value, then the flagged trailing run.
pub open spec fn granule_groups(ps: Seq<int>, rows: int) -> Seq<u64> {
    value_groups(ps).push((rows - next_row(ps) + 0x4000_0000_0000_0000) as u64)
}

/// `ps` are valid positions of a granule of `rows` rows: increasing, in range.
pub open spec fn granule_positions(ps: Seq<int>, rows: int) -> bool {
    &&& forall|i: int, j: int| 0 <= i < j < ps.len() ==> ps[i] < ps[j]
    &&& forall|i: int| 0 <= i < ps.len() ==> 0 <= #[trigger] ps[i] < rows
}

pub open spec fn empty_state() -> SparseDeserializeState {
    SparseDeserializeState { num_trailing_defaults: 0, has_value_after_defaults: false }
}

proof fn lemma_value_groups_scan(ps: Seq<int>, rows: int)
    requires
        0 <= rows < 0x4000_0000_0000_0000,
        granule_positions(ps, rows),
    ensures
        value_groups(ps).len() == ps.len(),
        forall|j: int| 0 <= j < ps.len() ==> !is_end_of_granule(#[trigger] value_groups(ps)[j]),
        scan_groups(scan_start(empty_state(), rows as nat), value_groups(ps), rows as nat) == (ps, next_row(ps), false),
        0 <= next_row(ps) <= rows,
    decreases ps.len(),
{
    if ps.len() > 0 {
        let init = ps.drop_last();
        assert(granule_positions(init, rows));
        lemma_value_groups_scan(init, rows);
        let g = (ps.last() - next_row(init)) as u64;
        assert(next_row(init) <= ps.last()) by {
            if init.len() > 0 {
                assert(init.last() == ps[ps.len() - 2]);
            }
        }
        assert(!is_end_of_granule(g));
        let gs = value_groups(ps);
        assert(gs.drop_last() =~= value_groups(init));
        assert(gs.last() == g);
        assert(init.push(ps.last()) =~= ps);
        assert forall|j: int| 0 <= j < ps.len() implies !is_end_of_granule(#[trigger] gs[j]) by {
            if j < ps.len() - 1 {
                assert(gs[j] == value_groups(init)[j]);
            }
        }
    } else {
        assert(scan_start(empty_state(), rows as nat).0 =~= ps);
    }
}

/// Reading back, with its own row count and no carried state, the groups a
/// writer emits for a granule gives the positions of its non-default values
/// and leaves no state behind.
pub proof fn lemma_granule_round_trip(ps: Seq<int>, rows: int)
    requires
        0 <= rows < 0x4000_0000_0000_0000,
        granule_positions(ps, rows),
    ensures
        granule_complete(granule_groups(ps, rows)),
        granule_scan(empty_state(), rows as nat, granule_groups(ps, rows)).0 == ps,
        state_after(empty_state(), rows as nat, granule_groups(ps, rows)) == empty_state(),
        granule_end(empty_state(), rows as nat, granule_groups(ps, rows)) == rows,
{
    lemma_value_groups_scan(ps, rows);
    let gs = granule_groups(ps, rows);
    assert(gs.drop_last() =~= value_groups(ps));
    let last = (rows - next_row(ps) + 0x4000_0000_0000_0000) as u64;
    assert(gs.last() == last);
    assert(is_end_of_granule(last));
    assert(group_run(last) == rows - next_row(ps));
    assert forall|j: int| 0 <= j < gs.len() - 1 implies !is_end_of_granule(#[trigger] gs[j]) by {
        assert(gs[j] == value_groups(ps)[j]);
    }
}

/// Arrow's time units.
#[derive(Clone, Copy, Debug, PartialEq, Eq, Structural)]
pub enum TimeUnit {
    Second,
    Millisecond,
    Microsecond,
    Nanosecond,
}

/// A column of Arrow values, one `Option` per row (`None` is null). Floats are
/// held as their IEEE-754 bit patterns, 256-bit decimals as their low and high
/// 128-bit words (two's complement). `Unsupported` names a data type this codec cannot
/// expand.
#[derive(Debug)]
pub enum ColumnData {
    Int8(Vec<Option<i8>>),
    Int16(Vec<Option<i16>>),
    Int32(Vec<Option<i32>>),
    Int64(Vec<Option<i64>>),
    UInt8(Vec<Option<u8>>),
    UInt16(Vec<Option<u16>>),
    UInt32(Vec<Option<u32>>),
    UInt64(Vec<Option<u64>>),
    Float32(Vec<Option<u32>>),
    Float64(Vec<Option<u64>>),
    Date32(Vec<Option<i32>>),
    Date64(Vec<Option<i64>>),
    Timestamp(TimeUnit, Option<String>, Vec<Option<i64>>),
    Decimal128(u8, i8, Vec<Option<i128>>),
    Decimal256(u8, i8, Vec<Option<(u128, u128)>>),
    Utf8(Vec<Option<String>>),
    LargeUtf8(Vec<Option<String>>),
    Binary(Vec<Option<Vec<u8>>>),
    LargeBinary(Vec<Option<Vec<u8>>>),
    Boolean(Vec<Option<bool>>),
    FixedSizeBinary(i32, Vec<Option<Vec<u8>>>),
    Unsupported(String),
}

/// Number of rows of a column (0 for an unsupported one).
pub open spec fn column_len(c: ColumnData) -> nat {
    match c {
        ColumnData::Int8(v) => v@.len(),
        ColumnData::Int16(v) => v@.len(),
        ColumnData::Int32(v) => v@.len(),
        ColumnData::Int64(v) => v@.len(),
        ColumnData::UInt8(v) => v@.len(),
        ColumnData::UInt16(v) => v@.len(),
        ColumnData::UInt32(v) => v@.len(),
        ColumnData::UInt64(v) => v@.len(),
        ColumnData::Float32(v) => v@.len(),
        ColumnData::Float64(v) => v@.len(),
        ColumnData::Date32(v) => v@.len(),
        ColumnData::Date64(v) => v@.len(),
        ColumnData::Timestamp(_, _, v) => v@.len(),
        ColumnData::Decimal128(_, _, v) => v@.len(),
        ColumnData::Decimal256(_, _, v) => v@.len(),
        ColumnData::Utf8(v) => v@.len(),
        ColumnData::LargeUtf8(v) => v@.len(),
        ColumnData::Binary(v) => v@.len(),
        ColumnData::LargeBinary(v) => v@.len(),
        ColumnData::Boolean(v) => v@.len(),
        ColumnData::FixedSizeBinary(_, v) => v@.len(),
        ColumnData::Unsupported(_) => 0,
    }
}

impl ColumnData {
    /// Number of rows.
    pub fn len(&self) -> (n: usize)
        ensures
            n == column_len(*self),
    {
        match self {
            ColumnData::Int8(v) => v.len(),
            ColumnData::Int16(v) => v.len(),
            ColumnData::Int32(v) => v.len(),
            ColumnData::Int64(v) => v.len(),
            ColumnData::UInt8(v) => v.len(),
            ColumnData::UInt16(v) => v.len(),
            ColumnData::UInt32(v) => v.len(),
            ColumnData::UInt64(v) => v.len(),
            ColumnData::Float32(v) => v.len(),
            ColumnData::Float64(v) => v.len(),
            ColumnData::Date32(v) => v.len(),
            ColumnData::Date64(v) => v.len(),
            ColumnData::Timestamp(_, _, v) => v.len(),
            ColumnData::Decimal128(_, _, v) => v.len(),
            ColumnData::Decimal256(_, _, v) => v.len(),
            ColumnData::Utf8(v) => v.len(),
            ColumnData::LargeUtf8(v) => v.len(),
            ColumnData::Binary(v) => v.len(),
            ColumnData::LargeBinary(v) => v.len(),
            ColumnData::Boolean(v) => v.len(),
            ColumnData::FixedSizeBinary(_, v) => v.len(),
            ColumnData::Unsupported(_) => 0,
        }
    }
}

/// Strictly increasing positions.
pub open spec fn strictly_ascending(s: Seq<usize>) -> bool {
    forall|i: int, j: int| 0 <= i < j < s.len() ==> s[i] < s[j]
}

/// Row `i` of the dense column: the sparse value whose position is `i`, or the
/// type's default (never null) where no position is `i`.
pub open spec fn expanded<T>(values: Seq<Option<T>>, offsets: Seq<usize>, rows: nat, default: T) -> Seq<Option<T>> {
    Seq::new(
        rows,
        |i: int|
            if exists|j: int| 0 <= j < offsets.len() && offsets[j] == i {
                values[choose|j: int| 0 <= j < offsets.len() && offsets[j] == i]
            } else {
                Some(default)
            },
    )
}

/// Where the expansion cursor stands when row `row` begins: it moves past a
/// position when the row it names is reached.
pub open spec fn cursor_before(offsets: Seq<usize>, row: nat) -> nat
    decreases row,
{
    if row == 0 {
        0
    } else {
        let j = cursor_before(offsets, (row - 1) as nat);
        if j < offsets.len() && offsets[j as int] == row - 1 {
            j + 1
        } else {
            j
        }
    }
}

/// The dense column: row `i` takes the sparse value under the cursor when
/// the cursor's position is `i`, and the type's default (never null)
/// otherwise.
pub open spec fn dense_cells<T>(values: Seq<Option<T>>, offsets: Seq<usize>, rows: nat, default: T) -> Seq<Option<T>> {
    Seq::new(
        rows,
        |i: int|
            {
                let j = cursor_before(offsets, i as nat);
                if j < offsets.len() && offsets[j as int] == i {
                    values[j as int]
                } else {
                    Some(default)
                }
            },
    )
}

/// Strings seen through their characters.
pub open spec fn string_cells(v: Seq<Option<String>>) -> Seq<Option<Seq<char>>> {
    v.map_values(|o: Option<String>| match o {
        Some(s) => Some(s@),
        None => None,
    })
}

/// Byte strings seen through their contents.
pub open spec fn byte_cells(v: Seq<Option<Vec<u8>>>) -> Seq<Option<Seq<u8>>> {
    v.map_values(|o: Option<Vec<u8>>| match o {
        Some(b) => Some(b@),
        None => None,
    })
}

/// What the cursor of the expansion loop knows at `row`: positions before
/// `idx` lie below `row`, those from `idx` on at or above it.
spec fn cursor_at(offsets: Seq<usize>, idx: int, row: int) -> bool {
    &&& 0 <= idx <= offsets.len()
    &&& forall|j: int| 0 <= j < idx ==> offsets[j] < row
    &&& forall|j: int| idx <= j < offsets.len() ==> offsets[j] >= row
}

/// At `row`, the sparse value that belongs there, if any, is the one under the
/// cursor.
proof fn lemma_cursor_step(offsets: Seq<usize>, idx: int, row: int)
    requires
        strictly_ascending(offsets),
        cursor_at(offsets, idx, row),
    ensures
        (idx < offsets.len() && offsets[idx] == row) ==> {
            &&& (choose|j: int| 0 <= j < offsets.len() && offsets[j] == row) == idx
            &&& cursor_at(offsets, idx + 1, row + 1)
        },
        !(idx < offsets.len() && offsets[idx] == row) ==> {
            &&& !(exists|j: int| 0 <= j < offsets.len() && offsets[j] == row)
            &&& cursor_at(offsets, idx, row + 1)
        },
{
    if idx < offsets.len() && offsets[idx] == row {
        assert(exists|j: int| 0 <= j < offsets.len() && offsets[j] == row);
        let c = choose|j: int| 0 <= j < offsets.len() && offsets[j] == row;
        if c < idx {
        } else if c > idx {
            assert(offsets[idx] < offsets[c]);
        }
        assert forall|j: int| idx + 1 <= j < offsets.len() implies offsets[j] >= row + 1 by {
            assert(offsets[idx] < offsets[j]);
        }
    } else {
        assert forall|j: int| idx <= j < offsets.len() implies offsets[j] >= row + 1 by {
            if idx < offsets.len() && j > idx {
                assert(offsets[idx] < offsets[j]);
            }
        }
    }
}

/// Dense expansion of a column of plain values.
fn expand_primitive<T: Copy>(sparse: &Vec<Option<T>>, offsets: &[usize], total_rows: usize, default: T) -> (r: Vec<Option<T>>)
    requires
        sparse@.len() == offsets@.len(),
    ensures
        r@ == dense_cells(sparse@, offsets@, total_rows as nat, default),
{
    let mut out: Vec<Option<T>> = Vec::with_capacity(total_rows);
    let mut offset_idx: usize = 0;
    let mut row: usize = 0;
    while row < total_rows
        invariant
            sparse@.len() == offsets@.len(),
                row <= total_rows,
            offset_idx <= offsets@.len(),
            offset_idx == cursor_before(offsets@, row as nat),
            out@.len() == row,
            forall|i: int| 0 <= i < row ==> out@[i] == dense_cells(sparse@, offsets@, total_rows as nat, default)[i],
        decreases total_rows - row,
    {
        if offset_idx < offsets.len() && offsets[offset_idx] == row {
            out.push(sparse[offset_idx]);
            offset_idx = offset_idx + 1;
        } else {
            out.push(Some(default));
        }
        row = row + 1;
    }
    assert(out@ =~= dense_cells(sparse@, offsets@, total_rows as nat, default));
    out
}

fn copy_bytes(src: &Vec<u8>) -> (r: Vec<u8>)
    ensures
        r@ == src@,
{
    let mut out: Vec<u8> = Vec::with_capacity(src.len());
    let mut i: usize = 0;
    while i < src.len()
        invariant
            i <= src@.len(),
            out@ == src@.subrange(0, i as int),
        decreases src@.len() - i,
    {
        out.push(src[i]);
        assert(out@ =~= src@.subrange(0, i + 1));
        i = i + 1;
    }
    assert(out@ =~= src@);
    out
}

/// Dense expansion of a string column; the default is the empty string.
fn expand_string(sparse: &Vec<Option<String>>, offsets: &[usize], total_rows: usize) -> (r: Vec<Option<String>>)
    requires
        sparse@.len() == offsets@.len(),
    ensures
        string_cells(r@) == dense_cells(string_cells(sparse@), offsets@, total_rows as nat, Seq::<char>::empty()),
{
    let ghost target = dense_cells(string_cells(sparse@), offsets@, total_rows as nat, Seq::<char>::empty());
    let mut out: Vec<Option<String>> = Vec::with_capacity(total_rows);
    let mut offset_idx: usize = 0;
    let mut row: usize = 0;
    while row < total_rows
        invariant
            sparse@.len() == offsets@.len(),
                row <= total_rows,
            offset_idx <= offsets@.len(),
            offset_idx == cursor_before(offsets@, row as nat),
            out@.len() == row,
            target == dense_cells(string_cells(sparse@), offsets@, total_rows as nat, Seq::<char>::empty()),
            forall|i: int| 0 <= i < row ==> string_cells(out@)[i] == target[i],
        decreases total_rows - row,
    {
        if offset_idx < offsets.len() && offsets[offset_idx] == row {
            let cell = match &sparse[offset_idx] {
                Some(s) => Some(s.clone()),
                None => None,
            };
            out.push(cell);
            offset_idx = offset_idx + 1;
        } else {
            out.push(Some(String::new()));
        }
        proof {
            assert forall|i: int| 0 <= i < row + 1 implies string_cells(out@)[i] == target[i] by {
                if i < row {
                    assert(string_cells(out@)[i] == string_cells(out@.drop_last())[i]);
                }
            }
        }
        row = row + 1;
    }
    assert(string_cells(out@) =~= target);
    out
}

/// Dense expansion of a byte-string column; the default is `default`.
fn expand_bytes(sparse: &Vec<Option<Vec<u8>>>, offsets: &[usize], total_rows: usize, default: &Vec<u8>) -> (r: Vec<Option<Vec<u8>>>)
    requires
        sparse@.len() == offsets@.len(),
    ensures
        byte_cells(r@) == dense_cells(byte_cells(sparse@), offsets@, total_rows as nat, default@),
{
    let ghost target = dense_cells(byte_cells(sparse@), offsets@, total_rows as nat, default@);
    let mut out: Vec<Option<Vec<u8>>> = Vec::with_capacity(total_rows);
    let mut offset_idx: usize = 0;
    let mut row: usize = 0;
    while row < total_rows
        invariant
            sparse@.len() == offsets@.len(),
                row <= total_rows,
            offset_idx <= offsets@.len(),
            offset_idx == cursor_before(offsets@, row as nat),
            out@.len() == row,
            target == dense_cells(byte_cells(sparse@), offsets@, total_rows as nat, default@),
            forall|i: int| 0 <= i < row ==> byte_cells(out@)[i] == target[i],
        decreases total_rows - row,
    {
        if offset_idx < offsets.len() && offsets[offset_idx] == row {
            let cell = match &sparse[offset_idx] {
                Some(b) => Some(copy_bytes(b)),
                None => None,
            };
            out.push(cell);
            offset_idx = offset_idx + 1;
        } else {
            out.push(Some(copy_bytes(default)));
        }
        proof {
            assert forall|i: int| 0 <= i < row + 1 implies byte_cells(out@)[i] == target[i] by {
                if i < row {
                    assert(byte_cells(out@)[i] == byte_cells(out@.drop_last())[i]);
                }
            }
        }
        row = row + 1;
    }
    assert(byte_cells(out@) =~= target);
    out
}

/// Dense expansion of a binary column; the default is the empty byte string.
fn expand_binary(sparse: &Vec<Option<Vec<u8>>>, offsets: &[usize], total_rows: usize) -> (r: Vec<Option<Vec<u8>>>)
    requires
        sparse@.len() == offsets@.len(),
    ensures
        byte_cells(r@) == dense_cells(byte_cells(sparse@), offsets@, total_rows as nat, Seq::<u8>::empty()),
{
    let empty: Vec<u8> = Vec::new();
    expand_bytes(sparse, offsets, total_rows, &empty)
}

/// Dense expansion of a boolean column; the default is `false`.
fn expand_boolean(sparse: &Vec<Option<bool>>, offsets: &[usize], total_rows: usize) -> (r: Vec<Option<bool>>)
    requires
        sparse@.len() == offsets@.len(),
    ensures
        r@ == dense_cells(sparse@, offsets@, total_rows as nat, false),
{
    expand_primitive(sparse, offsets, total_rows, false)
}

/// Dense expansion of a fixed-size binary column; the default is `size` zero
/// bytes.
fn expand_fixed_size_binary(sparse: &Vec<Option<Vec<u8>>>, offsets: &[usize], total_rows: usize, size: usize) -> (r: Vec<Option<Vec<u8>>>)
    requires
        sparse@.len() == offsets@.len(),
    ensures
        byte_cells(r@) == dense_cells(byte_cells(sparse@), offsets@, total_rows as nat, Seq::new(size as nat, |i: int| 0u8)),
{
    let mut zeros: Vec<u8> = Vec::with_capacity(size);
    let mut i: usize = 0;
    while i < size
        invariant
            i <= size,
            zeros@ == Seq::new(i as nat, |k: int| 0u8),
        decreases size - i,
    {
        zeros.push(0u8);
        assert(zeros@ =~= Seq::new((i + 1) as nat, |k: int| 0u8));
        i = i + 1;
    }
    expand_bytes(sparse, offsets, total_rows, &zeros)
}

fn copy_name(tz: &Option<String>) -> (r: Option<String>)
    ensures
        r == *tz,
{
    match tz {
        Some(s) => Some(s.clone()),
        None => None,
    }
}

/// `dense` is the expansion of `sparse` over `rows` rows: same data type,
/// values at their positions, the type's default elsewhere.
pub open spec fn is_expansion(sparse: ColumnData, offsets: Seq<usize>, rows: nat, dense: ColumnData) -> bool {
    match (sparse, dense) {
        (ColumnData::Int8(v), ColumnData::Int8(w)) => w@ == dense_cells(v@, offsets, rows, 0i8),
        (ColumnData::Int16(v), ColumnData::Int16(w)) => w@ == dense_cells(v@, offsets, rows, 0i16),
        (ColumnData::Int32(v), ColumnData::Int32(w)) => w@ == dense_cells(v@, offsets, rows, 0i32),
        (ColumnData::Int64(v), ColumnData::Int64(w)) => w@ == dense_cells(v@, offsets, rows, 0i64),
        (ColumnData::UInt8(v), ColumnData::UInt8(w)) => w@ == dense_cells(v@, offsets, rows, 0u8),
        (ColumnData::UInt16(v), ColumnData::UInt16(w)) => w@ == dense_cells(v@, offsets, rows, 0u16),
        (ColumnData::UInt32(v), ColumnData::UInt32(w)) => w@ == dense_cells(v@, offsets, rows, 0u32),
        (ColumnData::UInt64(v), ColumnData::UInt64(w)) => w@ == dense_cells(v@, offsets, rows, 0u64),
        (ColumnData::Float32(v), ColumnData::Float32(w)) => w@ == dense_cells(v@, offsets, rows, 0u32),
        (ColumnData::Float64(v), ColumnData::Float64(w)) => w@ == dense_cells(v@, offsets, rows, 0u64),
        (ColumnData::Date32(v), ColumnData::Date32(w)) => w@ == dense_cells(v@, offsets, rows, 0i32),
        (ColumnData::Date64(v), ColumnData::Date64(w)) => w@ == dense_cells(v@, offsets, rows, 0i64),
        (ColumnData::Timestamp(u, tz, v), ColumnData::Timestamp(u2, tz2, w)) => u2 == u && tz2 == tz
            && w@ == dense_cells(v@, offsets, rows, 0i64),
        (ColumnData::Decimal128(p, s, v), ColumnData::Decimal128(p2, s2, w)) => p2 == p && s2 == s
            && w@ == dense_cells(v@, offsets, rows, 0i128),
        (ColumnData::Decimal256(p, s, v), ColumnData::Decimal256(p2, s2, w)) => p2 == p && s2 == s
            && w@ == dense_cells(v@, offsets, rows, (0u128, 0u128)),
        (ColumnData::Utf8(v), ColumnData::Utf8(w)) => string_cells(w@) == dense_cells(string_cells(v@), offsets, rows, Seq::empty()),
        (ColumnData::LargeUtf8(v), ColumnData::LargeUtf8(w)) => string_cells(w@) == dense_cells(string_cells(v@), offsets, rows, Seq::empty()),
        (ColumnData::Binary(v), ColumnData::Binary(w)) => byte_cells(w@) == dense_cells(byte_cells(v@), offsets, rows, Seq::empty()),
        (ColumnData::LargeBinary(v), ColumnData::LargeBinary(w)) => byte_cells(w@) == dense_cells(byte_cells(v@), offsets, rows, Seq::empty()),
        (ColumnData::Boolean(v), ColumnData::Boolean(w)) => w@ == dense_cells(v@, offsets, rows, false),
        (ColumnData::FixedSizeBinary(s, v), ColumnData::FixedSizeBinary(s2, w)) => s2 == s && s >= 0
            && byte_cells(w@) == dense_cells(byte_cells(v@), offsets, rows, Seq::new(s as nat, |i: int| 0u8)),
        _ => false,
    }
}

/// Expands a sparse column (its non-default values, at `offsets`) to
/// `total_rows` rows, walking a cursor through `offsets` row by row.
/// Unsupported data types, and fixed-size binary of negative size, are
/// refused.
pub fn expand_sparse_array(sparse_array: &ColumnData, offsets: &[usize], total_rows: usize) -> (r: Result<ColumnData, Error>)
    requires
        column_len(*sparse_array) == offsets@.len(),
    ensures
        sparse_array matches ColumnData::Unsupported(name) ==> (r matches Err(Error::Unimplemented(msg))
            && msg@ == "Sparse expansion not implemented for type: "@ + name@),
        (sparse_array matches ColumnData::FixedSizeBinary(s, _) && s < 0) ==> (r is Err && r->Err_0 is UnexpectedType),
        r matches Ok(dense) ==> is_expansion(*sparse_array, offsets@, total_rows as nat, dense),
        !(sparse_array is Unsupported) && !(sparse_array matches ColumnData::FixedSizeBinary(s, _) && s < 0) ==> r is Ok,
{
    let dense = match sparse_array {
        ColumnData::Int8(v) => ColumnData::Int8(expand_primitive(v, offsets, total_rows, 0i8)),
        ColumnData::Int16(v) => ColumnData::Int16(expand_primitive(v, offsets, total_rows, 0i16)),
        ColumnData::Int32(v) => ColumnData::Int32(expand_primitive(v, offsets, total_rows, 0i32)),
        ColumnData::Int64(v) => ColumnData::Int64(expand_primitive(v, offsets, total_rows, 0i64)),
        ColumnData::UInt8(v) => ColumnData::UInt8(expand_primitive(v, offsets, total_rows, 0u8)),
        ColumnData::UInt16(v) => ColumnData::UInt16(expand_primitive(v, offsets, total_rows, 0u16)),
        ColumnData::UInt32(v) => ColumnData::UInt32(expand_primitive(v, offsets, total_rows, 0u32)),
        ColumnData::UInt64(v) => ColumnData::UInt64(expand_primitive(v, offsets, total_rows, 0u64)),
        ColumnData::Float32(v) => ColumnData::Float32(expand_primitive(v, offsets, total_rows, 0u32)),
        ColumnData::Float64(v) => ColumnData::Float64(expand_primitive(v, offsets, total_rows, 0u64)),
        ColumnData::Date32(v) => ColumnData::Date32(expand_primitive(v, offsets, total_rows, 0i32)),
        ColumnData::Date64(v) => ColumnData::Date64(expand_primitive(v, offsets, total_rows, 0i64)),
        ColumnData::Timestamp(u, tz, v) => ColumnData::Timestamp(
            *u,
            copy_name(tz),
            expand_primitive(v, offsets, total_rows, 0i64),
        ),
        ColumnData::Decimal128(p, s, v) => ColumnData::Decimal128(*p, *s, expand_primitive(v, offsets, total_rows, 0i128)),
        ColumnData::Decimal256(p, s, v) => ColumnData::Decimal256(*p, *s, expand_primitive(v, offsets, total_rows, (0u128, 0u128))),
        ColumnData::Utf8(v) => ColumnData::Utf8(expand_string(v, offsets, total_rows)),
        ColumnData::LargeUtf8(v) => ColumnData::LargeUtf8(expand_string(v, offsets, total_rows)),
        ColumnData::Binary(v) => ColumnData::Binary(expand_binary(v, offsets, total_rows)),
        ColumnData::LargeBinary(v) => ColumnData::LargeBinary(expand_binary(v, offsets, total_rows)),
        ColumnData::Boolean(v) => ColumnData::Boolean(expand_boolean(v, offsets, total_rows)),
        ColumnData::FixedSizeBinary(size, v) => {
            if *size < 0 {
                return Err(Error::UnexpectedType(String::from_str("FixedSizeBinary with a negative size")));
            }
            ColumnData::FixedSizeBinary(*size, expand_fixed_size_binary(v, offsets, total_rows, *size as usize))
        },
        ColumnData::Unsupported(name) => {
            return Err(
                Error::Unimplemented(
                    String::from_str("Sparse expansion not implemented for type: ").concat(name.as_str()),
                ),
            );
        },
    };
    Ok(dense)
}

proof fn lemma_cursor_matches(offsets: Seq<usize>, row: nat)
    requires
        strictly_ascending(offsets),
    ensures
        cursor_at(offsets, cursor_before(offsets, row) as int, row as int),
    decreases row,
{
    if row > 0 {
        lemma_cursor_matches(offsets, (row - 1) as nat);
        lemma_cursor_step(offsets, cursor_before(offsets, (row - 1) as nat) as int, row - 1);
    }
}

/// With strictly increasing positions, the cursor walk places each sparse
/// value at its position and the default everywhere else.
pub proof fn lemma_dense_is_expanded<T>(values: Seq<Option<T>>, offsets: Seq<usize>, rows: nat, default: T)
    requires
        values.len() == offsets.len(),
        strictly_ascending(offsets),
    ensures
        dense_cells(values, offsets, rows, default) == expanded(values, offsets, rows, default),
{
    assert forall|i: int| 0 <= i < rows implies dense_cells(values, offsets, rows, default)[i] == expanded(values, offsets, rows, default)[i] by {
        lemma_cursor_matches(offsets, i as nat);
        lemma_cursor_step(offsets, cursor_before(offsets, i as nat) as int, i);
    }
    assert(dense_cells(values, offsets, rows, default) =~= expanded(values, offsets, rows, default));
}

/// With strictly increasing positions, row `offsets[j]` of an expansion
/// holds sparse value `j`, and a row that no position names holds the
/// default.
pub proof fn lemma_expanded_rows<T>(values: Seq<Option<T>>, offsets: Seq<usize>, rows: nat, default: T, i: int)
    requires
        values.len() == offsets.len(),
        strictly_ascending(offsets),
        0 <= i < rows,
    ensures
        forall|j: int| 0 <= j < offsets.len() && offsets[j] == i ==> dense_cells(values, offsets, rows, default)[i] == values[j],
        (forall|j: int| 0 <= j < offsets.len() ==> offsets[j] != i) ==> dense_cells(values, offsets, rows, default)[i] == Some(default),
{
    lemma_dense_is_expanded(values, offsets, rows, default);
    assert forall|j: int| 0 <= j < offsets.len() && offsets[j] == i implies expanded(values, offsets, rows, default)[i] == values[j] by {
        let c = choose|c: int| 0 <= c < offsets.len() && offsets[c] == i;
        if c < j {
            assert(offsets[c] < offsets[j]);
        } else if c > j {
            assert(offsets[j] < offsets[c]);
        }
    }
}

/// A stream holds at most one complete granule at its front.
proof fn lemma_granule_unique(s: Seq<u8>, a: nat, b: nat)
    requires
        varint_stream(s, a) is Some,
        varint_stream(s, b) is Some,
        granule_complete(varint_stream(s, a)->Some_0.0),
        granule_complete(varint_stream(s, b)->Some_0.0),
    ensures
        a == b,
{
    lemma_stream_len(s, a);
    lemma_stream_len(s, b);
    if a < b {
        lemma_stream_prefix(s, b, a);
        let gb = varint_stream(s, b)->Some_0.0;
        assert(gb[a - 1] == varint_stream(s, a)->Some_0.0.last());
    } else if b < a {
        lemma_stream_prefix(s, a, b);
        let ga = varint_stream(s, a)->Some_0.0;
        assert(ga[b - 1] == varint_stream(s, b)->Some_0.0.last());
    }
}

/// Reading back, with its own row count and no carried state, the varint
/// bytes a writer emits for a granule: a granule is there to read, and any
/// read of it gives the positions of its non-default values, leaves no state
/// behind, and stops right where the granule ends.
pub proof fn lemma_granule_bytes_round_trip(
    ps: Seq<int>,
    rows: int,
    tail: Seq<u8>,
    positions: Seq<int>,
    state2: SparseDeserializeState,
    rest: Seq<u8>,
)
    requires
        0 <= rows < 0x4000_0000_0000_0000,
        granule_positions(ps, rows),
    ensures
        some_granule_available(varints_concat(granule_groups(ps, rows)) + tail, empty_state(), rows as nat),
        granule_was_read(varints_concat(granule_groups(ps, rows)) + tail, empty_state(), rows as nat, positions, state2, rest)
            ==> positions == ps && state2 == empty_state() && rest == tail,
{
    let gs = granule_groups(ps, rows);
    let s = varints_concat(gs) + tail;
    let n = varints_concat(gs).len();
    lemma_granule_round_trip(ps, rows);
    lemma_stream_of_encodings(gs, tail);
    let k = gs.len();
    assert(granule_available(s, empty_state(), rows as nat, k));
    if granule_was_read(s, empty_state(), rows as nat, positions, state2, rest) {
        let k2 = choose|k2: nat| #[trigger] granule_read(s, empty_state(), rows as nat, k2, positions, state2, rest);
        lemma_granule_unique(s, k, k2);
        assert(s.subrange(n as int, s.len() as int) =~= tail);
    }
}

/// Positions that increase strictly, lie in `0 .. rows`, and stay below `next`.
pub open spec fn ordered_below(ps: Seq<int>, rows: nat, next: int) -> bool {
    &&& forall|i: int, j: int| 0 <= i < j < ps.len() ==> ps[i] < ps[j]
    &&& forall|i: int| 0 <= i < ps.len() ==> 0 <= #[trigger] ps[i] < rows && ps[i] < next
}

proof fn lemma_scan_ordered(state: SparseDeserializeState, rows: nat, gs: Seq<u64>)
    ensures
        ordered_below(scan_groups(scan_start(state, rows), gs, rows).0, rows, scan_groups(scan_start(state, rows), gs, rows).1),
        scan_groups(scan_start(state, rows), gs, rows).1 >= 0,
    decreases gs.len(),
{
    if gs.len() > 0 {
        lemma_scan_ordered(state, rows, gs.drop_last());
    }
}

/// The positions a read of a granule returns increase strictly and lie below
/// the requested row count.
pub proof fn lemma_read_positions_ordered(
    s: Seq<u8>,
    state: SparseDeserializeState,
    rows: nat,
    positions: Seq<int>,
    state2: SparseDeserializeState,
    rest: Seq<u8>,
)
    requires
        granule_was_read(s, state, rows, positions, state2, rest),
    ensures
        forall|i: int, j: int| 0 <= i < j < positions.len() ==> positions[i] < positions[j],
        forall|i: int| 0 <= i < positions.len() ==> 0 <= #[trigger] positions[i] < rows,
{
    let k = choose|k: nat| #[trigger] granule_read(s, state, rows, k, positions, state2, rest);
    let gs = varint_stream(s, k)->Some_0.0;
    lemma_scan_ordered(state, rows, gs.drop_last());
}

} // verus!
