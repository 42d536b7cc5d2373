//! Varint (unsigned LEB128), byte-order swaps and UUID half swaps.

use crate::error::Error;
use vstd::prelude::*;
use vstd::slice::slice_subrange;
use vstd::string::StringExecFns;

verus! {

/// Max bytes for a varint-encoded u64.
pub const MAX_VARINT_LEN: usize = 10;

/// `128^k`.
pub open spec fn pow128(k: nat) -> nat
    decreases k,
{
    if k == 0 {
        1
    } else {
        128 * pow128((k - 1) as nat)
    }
}

/// The number held by a little-endian sequence of 7-bit groups (the low seven
/// bits of each byte; the continuation bit is ignored).
pub open spec fn varint_value(s: Seq<u8>) -> nat
    decreases s.len(),
{
    if s.len() == 0 {
        0
    } else {
        varint_value(s.drop_last()) + (s.last() % 128) as nat * pow128((s.len() - 1) as nat)
    }
}

/// The canonical LEB128 encoding of `v`: seven bits per byte, least significant
/// group first, continuation bit on every byte but the last.
pub open spec fn varint_bytes(v: nat) -> Seq<u8>
    decreases v,
{
    if v < 128 {
        seq![v as u8]
    } else {
        seq![(v % 128 + 128) as u8] + varint_bytes(v / 128)
    }
}

/// The concatenated encodings of a run of values.
pub open spec fn varints_concat(vs: Seq<u64>) -> Seq<u8>
    decreases vs.len(),
{
    if vs.len() == 0 {
        Seq::empty()
    } else {
        varints_concat(vs.drop_last()) + varint_bytes(vs.last() as nat)
    }
}

/// `s` begins with a complete varint of `n` bytes: the first `n - 1` bytes carry
/// the continuation bit and byte `n - 1` does not.
pub open spec fn varint_ends_at(s: Seq<u8>, n: int) -> bool {
    &&& 1 <= n <= s.len()
    &&& s[n - 1] < 128
    &&& forall|i: int| 0 <= i < n - 1 ==> s[i] >= 128
}

pub proof fn lemma_pow128_positive(k: nat)
    ensures
        pow128(k) >= 1,
    decreases k,
{
    if k > 0 {
        lemma_pow128_positive((k - 1) as nat);
    }
}

/// The value of `k` groups stays below `128^k`.
pub proof fn lemma_varint_value_bound(s: Seq<u8>)
    ensures
        varint_value(s) < pow128(s.len()),
    decreases s.len(),
{
    if s.len() > 0 {
        lemma_varint_value_bound(s.drop_last());
        let p = pow128((s.len() - 1) as nat);
        let a = varint_value(s.drop_last());
        let d = (s.last() % 128) as nat;
        assert(a + d * p < 128 * p) by (nonlinear_arith)
            requires
                a < p,
                d <= 127,
        ;
    }
}

/// Reading the groups from the front: the first byte is the lowest group.
pub proof fn lemma_varint_value_cons(a: u8, t: Seq<u8>)
    ensures
        varint_value(seq![a] + t) == (a % 128) as nat + 128 * varint_value(t),
    decreases t.len(),
{
    let s = seq![a] + t;
    assert(pow128(0) == 1);
    if t.len() == 0 {
        assert(s.drop_last() =~= Seq::<u8>::empty());
        assert(s.last() == a);
        assert(varint_value(s) == varint_value(s.drop_last()) + (a % 128) as nat * pow128(0));
    } else {
        assert(s.drop_last() =~= seq![a] + t.drop_last());
        lemma_varint_value_cons(a, t.drop_last());
        let p = pow128((t.len() - 1) as nat);
        let d = (t.last() % 128) as nat;
        let r = varint_value(t.drop_last());
        assert(s.last() == t.last());
        assert(pow128(t.len()) == 128 * p);
        assert(varint_value(t) == r + d * p);
        assert(varint_value(s) == varint_value(s.drop_last()) + d * pow128(t.len()));
        assert((a % 128) as nat + 128 * r + d * (128 * p) == (a % 128) as nat + 128 * (r + d * p))
            by (nonlinear_arith);
    }
}

/// The canonical encoding is a well-formed varint whose value is `v`, and it
/// needs at most `k` bytes when `v < 128^k`.
pub proof fn lemma_varint_bytes(v: nat, k: nat)
    requires
        k >= 1,
        v < pow128(k),
    ensures
        varint_value(varint_bytes(v)) == v,
        varint_ends_at(varint_bytes(v), varint_bytes(v).len() as int),
        varint_bytes(v).len() <= k,
    decreases v,
{
    let s = varint_bytes(v);
    if v < 128 {
        assert(s.drop_last() =~= Seq::<u8>::empty());
        assert(s.last() == v as u8);
        assert((v as u8) as nat == v);
        assert(((v as u8) % 128) as nat == v);
        assert(pow128(0) == 1);
        assert(varint_value(Seq::<u8>::empty()) == 0);
        assert(varint_value(s) == varint_value(s.drop_last()) + ((v as u8) % 128) as nat * pow128(0));
        assert(v * pow128(0) == v);
        assert(varint_value(s) == v);
    } else {
        let t = varint_bytes(v / 128);
        assert(k >= 2) by {
            if k == 1 {
                assert(pow128(0) == 1);
            }
        }
        assert(v / 128 < pow128((k - 1) as nat)) by (nonlinear_arith)
            requires
                v < pow128(k),
                pow128(k) == 128 * pow128((k - 1) as nat),
        ;
        lemma_varint_bytes(v / 128, (k - 1) as nat);
        let a = (v % 128 + 128) as u8;
        assert(a as nat == v % 128 + 128);
        assert(s =~= seq![a] + t);
        lemma_varint_value_cons(a, t);
        assert(a % 128 == v % 128);
        assert(v % 128 + 128 * (v / 128) == v) by (nonlinear_arith);
        assert(varint_value(s) == v);
        assert(a >= 128);
        assert forall|i: int| 0 <= i < s.len() - 1 implies s[i] >= 128 by {
            if i > 0 {
                assert(s[i] == t[i - 1]);
            }
        }
    }
}

pub proof fn lemma_pow128_ten()
    ensures
        pow128(10) == 0x40_0000_0000_0000_0000nat,
{
    reveal_with_fuel(pow128, 11);
}

pub proof fn lemma_u64_fits_ten_groups(v: u64)
    ensures
        (v as nat) < pow128(10),
{
    lemma_pow128_ten();
}

/// Decoding the encoding of any `u64` gives the value back, having consumed
/// exactly the bytes that were written, at most ten of them.
pub proof fn lemma_varint_round_trip(v: u64)
    ensures
        varint_bytes(v as nat).len() <= MAX_VARINT_LEN,
        varint_ends_at(varint_bytes(v as nat), varint_bytes(v as nat).len() as int),
        varint_value(varint_bytes(v as nat)) == v,
{
    lemma_u64_fits_ten_groups(v);
    lemma_varint_bytes(v as nat, 10);
}

/// Encode u64 as varint into buffer. Returns bytes written.
pub fn encode_varint(value: u64, buf: &mut [u8; MAX_VARINT_LEN]) -> (written: usize)
    ensures
        written == varint_bytes(value as nat).len(),
        final(buf)@.subrange(0, written as int) == varint_bytes(value as nat),
        forall|i: int| written <= i < MAX_VARINT_LEN ==> final(buf)@[i] == old(buf)@[i],
{
    proof {
        lemma_varint_round_trip(value);
    }
    let ghost full = varint_bytes(value as nat);
    let mut v: u64 = value;
    let mut pos: usize = 0;
    loop
        invariant
            full == varint_bytes(value as nat),
            pos + varint_bytes(v as nat).len() == full.len(),
            full.len() <= MAX_VARINT_LEN,
            buf@.subrange(0, pos as int) + varint_bytes(v as nat) == full,
            forall|i: int| pos <= i < MAX_VARINT_LEN ==> buf@[i] == old(buf)@[i],
        decreases v,
    {
        if v < 0x80 {
            buf[pos] = v as u8;
            assert(varint_bytes(v as nat) =~= seq![v as u8]);
            assert(buf@.subrange(0, pos + 1) =~= full);
            return pos + 1;
        }
        let byte: u8 = (v % 128 + 128) as u8;
        assert(varint_bytes(v as nat) =~= seq![byte] + varint_bytes((v / 128) as nat));
        buf[pos] = byte;
        assert(buf@.subrange(0, pos + 1) =~= buf@.subrange(0, pos as int).push(byte));
        assert(buf@.subrange(0, pos + 1) + varint_bytes((v / 128) as nat) =~= full);
        v = v / 128;
        pos = pos + 1;
    }
}

/// Decode varint from slice. Returns `(value, bytes_consumed)`, or `None` when
/// the first ten bytes hold no final byte (truncated or over-long input). Groups
/// above bit 63 of a ten-byte varint are dropped.
pub fn decode_varint(buf: &[u8]) -> (r: Option<(u64, usize)>)
    ensures
        r is None <==> forall|i: int| 0 <= i < buf@.len() && i < MAX_VARINT_LEN ==> buf@[i] >= 128,
        r matches Some((v, n)) ==> {
            &&& n <= MAX_VARINT_LEN
            &&& varint_ends_at(buf@, n as int)
            &&& v as nat == varint_value(buf@.subrange(0, n as int)) % 0x1_0000_0000_0000_0000
        },
{
    if buf.len() == 0 {
        return None;
    }
    if buf[0] < 0x80 {
        assert(buf@.subrange(0, 1).drop_last() =~= Seq::<u8>::empty());
        assert(pow128(0) == 1);
        let ghost first = buf@.subrange(0, 1);
        assert(first.len() == 1 && first.last() == buf@[0]);
        assert(varint_value(first) == varint_value(first.drop_last()) + (buf@[0] % 128) as nat * pow128(0));
        assert(varint_value(buf@.subrange(0, 1)) == buf@[0] as nat);
        return Some((buf[0] as u64, 1));
    }
    let mut acc: u128 = 0;
    let mut scale: u128 = 1;
    let mut i: usize = 0;
    proof {
        lemma_pow128_ten();
        assert(buf@.subrange(0, 0) =~= Seq::<u8>::empty());
    }
    while i < buf.len() && i < MAX_VARINT_LEN
        invariant
            i <= MAX_VARINT_LEN,
            i <= buf@.len(),
            forall|j: int| 0 <= j < i ==> buf@[j] >= 128,
            acc == varint_value(buf@.subrange(0, i as int)),
            scale == pow128(i as nat),
            acc < scale,
            scale <= pow128(10),
        decreases MAX_VARINT_LEN - i,
    {
        let b = buf[i];
        let ghost prev = buf@.subrange(0, i as int);
        let ghost next = buf@.subrange(0, i + 1);
        assert(next.drop_last() =~= prev);
        proof {
            lemma_pow128_ten();
        }
        let low: u128 = (b % 128) as u128;
        assert(acc + low * scale < 128 * scale) by (nonlinear_arith)
            requires
                acc < scale,
                low <= 127,
        ;
        acc = acc + low * scale;
        if b < 0x80 {
            return Some(((acc % 0x1_0000_0000_0000_0000) as u64, i + 1));
        }
        if i + 1 < MAX_VARINT_LEN {
            assert(pow128((i + 1) as nat) <= pow128(10)) by {
                lemma_pow128_monotonic((i + 1) as nat, 10);
            }
        }
        scale = scale * 128;
        i = i + 1;
    }
    None
}

pub proof fn lemma_pow128_monotonic(a: nat, b: nat)
    requires
        a <= b,
    ensures
        pow128(a) <= pow128(b),
    decreases b - a,
{
    if a < b {
        lemma_pow128_monotonic(a, (b - 1) as nat);
        lemma_pow128_positive((b - 1) as nat);
    }
}

/// `256^k`.
pub open spec fn pow256(k: nat) -> nat
    decreases k,
{
    if k == 0 {
        1
    } else {
        256 * pow256((k - 1) as nat)
    }
}

/// The number a little-endian byte string denotes.
pub open spec fn le_value(s: Seq<u8>) -> nat
    decreases s.len(),
{
    if s.len() == 0 {
        0
    } else {
        s[0] as nat + 256 * le_value(s.drop_first())
    }
}

/// The `n` least significant bytes of `x`, least significant first.
pub open spec fn le_bytes(x: nat, n: nat) -> Seq<u8>
    decreases n,
{
    if n == 0 {
        Seq::empty()
    } else {
        seq![(x % 256) as u8] + le_bytes(x / 256, (n - 1) as nat)
    }
}

pub proof fn lemma_le_value_bound(s: Seq<u8>)
    ensures
        le_value(s) < pow256(s.len()),
    decreases s.len(),
{
    if s.len() > 0 {
        lemma_le_value_bound(s.drop_first());
        let a = s[0] as nat;
        let r = le_value(s.drop_first());
        let p = pow256((s.len() - 1) as nat);
        assert(a + 256 * r < 256 * p) by (nonlinear_arith)
            requires
                a < 256,
                r < p,
        ;
    }
}

/// Writing `n` bytes and reading them back gives `x` when it fits.
pub proof fn lemma_le_round_trip(x: nat, n: nat)
    requires
        x < pow256(n),
    ensures
        le_bytes(x, n).len() == n,
        le_value(le_bytes(x, n)) == x,
    decreases n,
{
    if n > 0 {
        assert(x / 256 < pow256((n - 1) as nat)) by (nonlinear_arith)
            requires
                x < pow256(n),
                pow256(n) == 256 * pow256((n - 1) as nat),
        ;
        lemma_le_round_trip(x / 256, (n - 1) as nat);
        let s = le_bytes(x, n);
        assert(s.drop_first() =~= le_bytes(x / 256, (n - 1) as nat));
        assert(((x % 256) as u8) as nat == x % 256);
    } else {
        assert(x == 0) by {
            assert(pow256(0) == 1);
        }
    }
}

pub proof fn lemma_pow256_values()
    ensures
        pow256(4) == 0x1_0000_0000nat,
        pow256(8) == 0x1_0000_0000_0000_0000nat,
{
    reveal_with_fuel(pow256, 9);
}

/// Reads the little-endian number held by `data[start..start + n]`.
fn le_at(data: &Vec<u8>, start: usize, n: usize) -> (r: u64)
    requires
        n <= 8,
        start + n <= data.len(),
    ensures
        r as nat == le_value(data@.subrange(start as int, start + n)),
{
    proof {
        lemma_pow256_values();
    }
    let end = start + n;
    let mut j: usize = end;
    let mut acc: u64 = 0;
    assert(data@.subrange(end as int, end as int) =~= Seq::<u8>::empty());
    while j > start
        invariant
            start <= j <= end,
            end == start + n,
            n <= 8,
            end <= data@.len(),
            acc as nat == le_value(data@.subrange(j as int, end as int)),
            pow256(8) == 0x1_0000_0000_0000_0000nat,
        decreases j,
    {
        let ghost tail = data@.subrange(j as int, end as int);
        let ghost ext = data@.subrange(j - 1, end as int);
        assert(ext.drop_first() =~= tail);
        proof {
            lemma_le_value_bound(ext);
            lemma_pow256_monotonic(ext.len(), 8);
        }
        acc = acc * 256 + data[j - 1] as u64;
        j = j - 1;
    }
    acc
}

pub proof fn lemma_pow256_monotonic(a: nat, b: nat)
    requires
        a <= b,
    ensures
        pow256(a) <= pow256(b),
    decreases b - a,
{
    if a < b {
        lemma_pow256_monotonic(a, (b - 1) as nat);
        assert(pow256(b) == 256 * pow256((b - 1) as nat));
    }
}

/// The first varint of `s` and how many bytes it spans, when the first ten
/// bytes hold its end.
pub open spec fn varint_first(s: Seq<u8>) -> Option<(u64, nat)> {
    if exists|n: int| n <= MAX_VARINT_LEN && varint_ends_at(s, n) {
        let n = choose|n: int| n <= MAX_VARINT_LEN && varint_ends_at(s, n);
        Some(((varint_value(s.subrange(0, n)) % 0x1_0000_0000_0000_0000) as u64, n as nat))
    } else {
        None
    }
}

/// The first `k` varints of `s` and the bytes they span.
pub open spec fn varint_stream(s: Seq<u8>, k: nat) -> Option<(Seq<u64>, nat)>
    decreases k,
{
    if k == 0 {
        Some((Seq::empty(), 0))
    } else {
        match varint_stream(s, (k - 1) as nat) {
            Some((vs, n)) => match varint_first(s.subrange(n as int, s.len() as int)) {
                Some((v, m)) => Some((vs.push(v), n + m)),
                None => None,
            },
            None => None,
        }
    }
}

/// The first varint of a canonical encoding followed by anything is the
/// encoded value.
pub proof fn lemma_varint_first_of_encoding(v: u64, tail: Seq<u8>)
    ensures
        varint_first(varint_bytes(v as nat) + tail) == Some((v, varint_bytes(v as nat).len())),
{
    let e = varint_bytes(v as nat);
    let s = e + tail;
    let n = e.len() as int;
    lemma_varint_round_trip(v);
    assert(varint_ends_at(s, n)) by {
        assert forall|i: int| 0 <= i < n - 1 implies s[i] >= 128 by {
            assert(s[i] == e[i]);
        }
        assert(s[n - 1] == e[n - 1]);
    }
    let c = choose|c: int| c <= MAX_VARINT_LEN && varint_ends_at(s, c);
    lemma_varint_end_unique(s, c, n);
    assert(s.subrange(0, n) =~= e);
    assert((v as nat) % 0x1_0000_0000_0000_0000 == v as nat);
}

/// Reading back a run of canonical encodings gives the values.
pub proof fn lemma_stream_of_encodings(vs: Seq<u64>, tail: Seq<u8>)
    ensures
        varint_stream(varints_concat(vs) + tail, vs.len()) == Some((vs, varints_concat(vs).len())),
    decreases vs.len(),
{
    let s = varints_concat(vs) + tail;
    if vs.len() == 0 {
        assert(vs =~= Seq::<u64>::empty());
    } else {
        let init = vs.drop_last();
        let last = vs.last();
        let e = varint_bytes(last as nat);
        let rest = e + tail;
        assert(s =~= varints_concat(init) + rest);
        lemma_stream_of_encodings(init, rest);
        let n = varints_concat(init).len();
        assert(s.subrange(n as int, s.len() as int) =~= rest);
        lemma_varint_first_of_encoding(last, tail);
        assert(init.push(last) =~= vs);
    }
}

/// A varint has one end.
pub proof fn lemma_varint_end_unique(s: Seq<u8>, a: int, b: int)
    requires
        varint_ends_at(s, a),
        varint_ends_at(s, b),
    ensures
        a == b,
{
    if a < b {
        assert(s[a - 1] >= 128);
    } else if b < a {
        assert(s[b - 1] >= 128);
    }
}

/// An in-memory byte source read front to back.
pub struct ByteReader {
    data: Vec<u8>,
    pos: usize,
}

impl View for ByteReader {
    type V = Seq<u8>;

    /// The bytes not yet consumed.
    closed spec fn view(&self) -> Seq<u8> {
        self.data@.subrange(self.pos as int, self.data@.len() as int)
    }
}

impl ByteReader {
    #[verifier::type_invariant]
    spec fn inv(&self) -> bool {
        self.pos <= self.data@.len()
    }

    /// A reader positioned at the start of `data`.
    pub fn new(data: Vec<u8>) -> (r: ByteReader)
        ensures
            r@ == data@,
    {
        let r = ByteReader { data, pos: 0 };
        assert(r.data@.subrange(0, r.data@.len() as int) =~= r.data@);
        r
    }

    /// How many bytes are left.
    pub fn remaining(&self) -> (n: usize)
        ensures
            n == self@.len(),
    {
        proof {
            use_type_invariant(self);
        }
        self.data.len() - self.pos
    }

    /// Takes `n` bytes off the front, or nothing when fewer are left.
    pub fn read_exact(&mut self, n: usize) -> (r: Option<Vec<u8>>)
        ensures
            old(self)@.len() < n ==> r is None && final(self)@ == old(self)@,
            old(self)@.len() >= n ==> (r matches Some(v) && v@ == old(self)@.subrange(0, n as int)
                && final(self)@ == old(self)@.subrange(n as int, old(self)@.len() as int)),
    {
        proof {
            use_type_invariant(&*self);
        }
        if self.data.len() - self.pos < n {
            return None;
        }
        let mut out: Vec<u8> = Vec::with_capacity(n);
        let mut i: usize = 0;
        while i < n
            invariant
                self.pos + n <= self.data.len(),
                i <= n,
                out@ == self.data@.subrange(self.pos as int, self.pos + i),
            decreases n - i,
        {
            out.push(self.data[self.pos + i]);
            assert(out@ =~= self.data@.subrange(self.pos as int, self.pos + i + 1));
            i = i + 1;
        }
        let ghost before = self@;
        self.pos = self.pos + n;
        assert(out@ =~= before.subrange(0, n as int));
        assert(self@ =~= before.subrange(n as int, before.len() as int));
        Some(out)
    }

    /// Takes one byte.
    pub fn read_u8(&mut self) -> (r: Option<u8>)
        ensures
            old(self)@.len() == 0 ==> r is None && final(self)@ == old(self)@,
            old(self)@.len() > 0 ==> r == Some(old(self)@[0]) && final(self)@ == old(self)@.drop_first(),
    {
        proof {
            use_type_invariant(&*self);
        }
        if self.pos >= self.data.len() {
            return None;
        }
        let b = self.data[self.pos];
        let ghost before = self@;
        self.pos = self.pos + 1;
        assert(self@ =~= before.drop_first());
        Some(b)
    }

    /// Takes a little-endian `u32`.
    pub fn read_u32_le(&mut self) -> (r: Option<u32>)
        ensures
            old(self)@.len() < 4 ==> r is None && final(self)@ == old(self)@,
            old(self)@.len() >= 4 ==> (r matches Some(v) && v as nat == le_value(old(self)@.subrange(0, 4))
                && final(self)@ == old(self)@.subrange(4, old(self)@.len() as int)),
    {
        proof {
            use_type_invariant(&*self);
        }
        if self.data.len() - self.pos < 4 {
            return None;
        }
        let v = le_at(&self.data, self.pos, 4);
        let ghost before = self@;
        assert(self.data@.subrange(self.pos as int, self.pos + 4) =~= before.subrange(0, 4));
        proof {
            lemma_le_value_bound(before.subrange(0, 4));
            lemma_pow256_values();
        }
        self.pos = self.pos + 4;
        assert(self@ =~= before.subrange(4, before.len() as int));
        Some(v as u32)
    }

    /// Takes a little-endian `u64`.
    pub fn read_u64_le(&mut self) -> (r: Option<u64>)
        ensures
            old(self)@.len() < 8 ==> r is None && final(self)@ == old(self)@,
            old(self)@.len() >= 8 ==> (r matches Some(v) && v as nat == le_value(old(self)@.subrange(0, 8))
                && final(self)@ == old(self)@.subrange(8, old(self)@.len() as int)),
    {
        proof {
            use_type_invariant(&*self);
        }
        if self.data.len() - self.pos < 8 {
            return None;
        }
        let v = le_at(&self.data, self.pos, 8);
        let ghost before = self@;
        assert(self.data@.subrange(self.pos as int, self.pos + 8) =~= before.subrange(0, 8));
        self.pos = self.pos + 8;
        assert(self@ =~= before.subrange(8, before.len() as int));
        Some(v)
    }

    /// Takes one varint; a truncated or over-long one is a protocol error.
    pub fn try_get_var_uint(&mut self) -> (r: Result<u64, Error>)
        ensures
            r is Err <==> forall|i: int| 0 <= i < old(self)@.len() && i < MAX_VARINT_LEN ==> old(self)@[i] >= 128,
            r is Err ==> ((r is Err && r->Err_0 is Protocol) && final(self)@ == old(self)@),
            r is Ok <==> varint_first(old(self)@) is Some,
            r matches Ok(v) ==> (varint_first(old(self)@) matches Some((v2, n)) && v2 == v
                && final(self)@ == old(self)@.subrange(n as int, old(self)@.len() as int)),
    {
        proof {
            use_type_invariant(&*self);
        }
        let ghost before = self@;
        let end = if self.data.len() - self.pos < MAX_VARINT_LEN {
            self.data.len()
        } else {
            self.pos + MAX_VARINT_LEN
        };
        let window = slice_subrange(self.data.as_slice(), self.pos, end);
        assert(window@ =~= before.subrange(0, (end - self.pos) as int));
        match decode_varint(window) {
            Some((v, n)) => {
                assert(varint_ends_at(before, n as int));
                assert(window@.subrange(0, n as int) =~= before.subrange(0, n as int));
                proof {
                    let m = choose|m: int| m <= MAX_VARINT_LEN && varint_ends_at(before, m);
                    lemma_varint_end_unique(before, m, n as int);
                }
                self.pos = self.pos + n;
                assert(self@ =~= before.subrange(n as int, before.len() as int));
                Ok(v)
            },
            None => {
                assert forall|n: int| n <= MAX_VARINT_LEN implies !varint_ends_at(before, n) by {
                    if varint_ends_at(before, n) {
                        assert(window@[n - 1] == before[n - 1]);
                    }
                }
                Err(Error::Protocol(String::from_str("Failed to read varint: truncated or longer than ten bytes")))
            },
        }
    }
}

/// Batch-encode varints, appending each encoding to `output`.
pub fn encode_varints_batch(values: &[u64], output: &mut Vec<u8>)
    ensures
        final(output)@ == old(output)@ + varints_concat(values@),
{
    let mut buf: [u8; MAX_VARINT_LEN] = [0u8; MAX_VARINT_LEN];
    let mut i: usize = 0;
    assert(varints_concat(values@.subrange(0, 0)) =~= Seq::<u8>::empty());
    assert(output@ =~= old(output)@ + varints_concat(values@.subrange(0, 0)));
    while i < values.len()
        invariant
            i <= values@.len(),
            output@ == old(output)@ + varints_concat(values@.subrange(0, i as int)),
        decreases values@.len() - i,
    {
        let value = values[i];
        proof {
            lemma_varint_round_trip(value);
        }
        let len = encode_varint(value, &mut buf);
        let ghost enc = varint_bytes(value as nat);
        let ghost start = output@;
        let mut k: usize = 0;
        while k < len
            invariant
                k <= len,
                len <= MAX_VARINT_LEN,
                buf@.subrange(0, len as int) == enc,
                output@ == start + enc.subrange(0, k as int),
            decreases len - k,
        {
            output.push(buf[k]);
            assert(enc.subrange(0, k + 1) =~= enc.subrange(0, k as int).push(enc[k as int]));
            k = k + 1;
        }
        assert(enc.subrange(0, len as int) =~= enc);
        let ghost prefix = values@.subrange(0, i + 1);
        assert(prefix.drop_last() =~= values@.subrange(0, i as int));
        assert(output@ =~= old(output)@ + varints_concat(prefix));
        i = i + 1;
    }
    assert(values@.subrange(0, values@.len() as int) =~= values@);
}

/// `x` with its two bytes swapped.
pub open spec fn swapped16(x: u16) -> u16 {
    ((x % 256) * 256 + x / 256) as u16
}

/// `x` with its four bytes in reverse order.
pub open spec fn swapped32(x: u32) -> u32 {
    ((x % 256) * 0x100_0000 + ((x / 0x100) % 256) * 0x1_0000 + ((x / 0x1_0000) % 256) * 0x100 + x / 0x100_0000) as u32
}

/// `x` with its eight bytes in reverse order.
pub open spec fn swapped64(x: u64) -> u64 {
    ((x % 256) * 0x100_0000_0000_0000 + ((x / 0x100) % 256) * 0x1_0000_0000_0000
        + ((x / 0x1_0000) % 256) * 0x100_0000_0000 + ((x / 0x100_0000) % 256) * 0x1_0000_0000
        + ((x / 0x1_0000_0000) % 256) * 0x100_0000 + ((x / 0x100_0000_0000) % 256) * 0x1_0000
        + ((x / 0x1_0000_0000_0000) % 256) * 0x100 + x / 0x100_0000_0000_0000) as u64
}

fn swap16(x: u16) -> (r: u16)
    ensures
        r == swapped16(x),
{
    (x % 256) * 256 + x / 256
}

fn swap32(x: u32) -> (r: u32)
    ensures
        r == swapped32(x),
{
    (x % 256) * 0x100_0000 + ((x / 0x100) % 256) * 0x1_0000 + ((x / 0x1_0000) % 256) * 0x100 + x / 0x100_0000
}

fn swap64(x: u64) -> (r: u64)
    ensures
        r == swapped64(x),
{
    (x % 256) * 0x100_0000_0000_0000 + ((x / 0x100) % 256) * 0x1_0000_0000_0000 + ((x / 0x1_0000) % 256)
        * 0x100_0000_0000 + ((x / 0x100_0000) % 256) * 0x1_0000_0000 + ((x / 0x1_0000_0000) % 256)
        * 0x100_0000 + ((x / 0x100_0000_0000) % 256) * 0x1_0000 + ((x / 0x1_0000_0000_0000) % 256)
        * 0x100 + x / 0x100_0000_0000_0000
}

/// Swap the bytes of every value (endian conversion).
pub fn swap_bytes_u16_slice(data: &mut [u16])
    ensures
        final(data)@.len() == old(data)@.len(),
        forall|i: int| 0 <= i < old(data)@.len() ==> final(data)@[i] == swapped16(old(data)@[i]),
{
    let mut i: usize = 0;
    while i < data.len()
        invariant
            i <= data@.len(),
            data@.len() == old(data)@.len(),
            forall|k: int| 0 <= k < i ==> data@[k] == swapped16(old(data)@[k]),
            forall|k: int| i <= k < data@.len() ==> data@[k] == old(data)@[k],
        decreases data@.len() - i,
    {
        let v = swap16(data[i]);
        data[i] = v;
        i = i + 1;
    }
}

/// Swap the bytes of every value (endian conversion).
pub fn swap_bytes_u32_slice(data: &mut [u32])
    ensures
        final(data)@.len() == old(data)@.len(),
        forall|i: int| 0 <= i < old(data)@.len() ==> final(data)@[i] == swapped32(old(data)@[i]),
{
    let mut i: usize = 0;
    while i < data.len()
        invariant
            i <= data@.len(),
            data@.len() == old(data)@.len(),
            forall|k: int| 0 <= k < i ==> data@[k] == swapped32(old(data)@[k]),
            forall|k: int| i <= k < data@.len() ==> data@[k] == old(data)@[k],
        decreases data@.len() - i,
    {
        let v = swap32(data[i]);
        data[i] = v;
        i = i + 1;
    }
}

/// Swap the bytes of every value (endian conversion).
pub fn swap_bytes_u64_slice(data: &mut [u64])
    ensures
        final(data)@.len() == old(data)@.len(),
        forall|i: int| 0 <= i < old(data)@.len() ==> final(data)@[i] == swapped64(old(data)@[i]),
{
    let mut i: usize = 0;
    while i < data.len()
        invariant
            i <= data@.len(),
            data@.len() == old(data)@.len(),
            forall|k: int| 0 <= k < i ==> data@[k] == swapped64(old(data)@[k]),
            forall|k: int| i <= k < data@.len() ==> data@[k] == old(data)@[k],
        decreases data@.len() - i,
    {
        let v = swap64(data[i]);
        data[i] = v;
        i = i + 1;
    }
}

/// A UUID with its two 8-byte halves exchanged.
pub open spec fn halves_swapped(u: Seq<u8>) -> Seq<u8> {
    u.subrange(8, 16) + u.subrange(0, 8)
}

/// Swap UUID halves in place (Arrow order to ClickHouse order and back).
pub fn swap_uuid_halves(uuid: &mut [u8; 16])
    ensures
        final(uuid)@ == halves_swapped(old(uuid)@),
{
    let mut i: usize = 0;
    while i < 8
        invariant
            i <= 8,
            uuid@.len() == 16,
            forall|k: int| 0 <= k < i ==> uuid@[k] == old(uuid)@[k + 8],
            forall|k: int| 8 <= k < 8 + i ==> uuid@[k] == old(uuid)@[k - 8],
            forall|k: int| i <= k < 8 ==> uuid@[k] == old(uuid)@[k],
            forall|k: int| 8 + i <= k < 16 ==> uuid@[k] == old(uuid)@[k],
        decreases 8 - i,
    {
        let low = uuid[i];
        let high = uuid[i + 8];
        uuid[i] = high;
        uuid[i + 8] = low;
        i = i + 1;
    }
    assert(uuid@ =~= halves_swapped(old(uuid)@));
}

/// Copies a 16-byte UUID with its halves exchanged.
fn swapped_copy(uuid: &[u8]) -> (r: [u8; 16])
    requires
        uuid@.len() == 16,
    ensures
        r@ == halves_swapped(uuid@),
{
    let mut result: [u8; 16] = [0u8; 16];
    let mut i: usize = 0;
    while i < 8
        invariant
            i <= 8,
            uuid@.len() == 16,
            result@.len() == 16,
            forall|k: int| 0 <= k < i ==> result@[k] == uuid@[k + 8],
            forall|k: int| 8 <= k < 8 + i ==> result@[k] == uuid@[k - 8],
        decreases 8 - i,
    {
        result[i] = uuid[i + 8];
        result[i + 8] = uuid[i];
        i = i + 1;
    }
    assert(result@ =~= halves_swapped(uuid@));
    result
}

/// A UUID in ClickHouse order (halves exchanged), as a new array.
pub fn uuid_to_clickhouse(uuid: &[u8; 16]) -> (r: [u8; 16])
    ensures
        r@ == halves_swapped(uuid@),
{
    swapped_copy(uuid.as_slice())
}

/// A UUID slice in ClickHouse order; `None` unless it holds exactly 16 bytes.
pub fn uuid_slice_to_clickhouse(uuid: &[u8]) -> (r: Option<[u8; 16]>)
    ensures
        uuid@.len() != 16 <==> r is None,
        r matches Some(a) ==> a@ == halves_swapped(uuid@),
{
    if uuid.len() != 16 {
        return None;
    }
    Some(swapped_copy(uuid))
}

} // verus!
