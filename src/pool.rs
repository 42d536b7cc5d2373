//! Reuse of byte buffers on hot paths: five size tiers, each a bounded FIFO
//! queue of released buffers.

use std::collections::VecDeque;
use vstd::prelude::*;

verus! {

/// Flush streaming inserts when the buffer exceeds this (254 KiB, leaving room
/// for frame headers under 256 KiB).
pub const MIN_CHUNK_SIZE: usize = 254 * 1024;

/// Default serialization buffer (256 KiB).
pub const DEFAULT_BUFFER_SIZE: usize = 256 * 1024;

/// ArrowStream serialization buffer (1 MiB).
pub const ARROW_STREAM_BUFFER_SIZE: usize = 1024 * 1024;

/// Ceiling of the tiny tier (null masks, small metadata).
pub const TINY: usize = 1024;

/// Ceiling of the small tier.
pub const SMALL: usize = 4 * 1024;

/// Ceiling of the medium tier.
pub const MEDIUM: usize = 64 * 1024;

/// Ceiling of the large tier; bigger buffers go to the unbounded tier.
pub const LARGE: usize = 1024 * 1024;

/// Buffers kept per tier.
pub const MAX_POOL_SIZE: usize = 32;

/// Buffers smaller than this are not kept.
pub const MIN_POOLED_CAPACITY: usize = 512;

/// Largest capacity the pool hands out: its rounding stays within `isize`.
pub const MAX_REQUEST: usize = usize::MAX / 4 + 1;

/// Relies on `Vec::capacity`: never less than the length.
#[verifier::external_body]
fn vec_capacity(v: &Vec<u8>) -> (r: usize)
    ensures
        r >= v@.len(),
{
    v.capacity()
}

/// The tier a buffer of `size` bytes belongs to.
pub open spec fn tier_of(size: nat) -> int {
    if size <= TINY {
        0
    } else if size <= SMALL {
        1
    } else if size <= MEDIUM {
        2
    } else if size <= LARGE {
        3
    } else {
        4
    }
}

/// `p` is a power of two.
pub open spec fn is_pow2(p: nat) -> bool
    decreases p,
{
    if p <= 1 {
        p == 1
    } else {
        p % 2 == 0 && is_pow2(p / 2)
    }
}

/// The capacity a fresh buffer of the tier for `size` is allocated with: the
/// tier's ceiling, or in the unbounded tier the least power of two not below
/// `size`.
pub open spec fn rounded_capacity(size: nat, r: nat) -> bool {
    if size <= TINY {
        r == TINY
    } else if size <= SMALL {
        r == SMALL
    } else if size <= MEDIUM {
        r == MEDIUM
    } else if size <= LARGE {
        r == LARGE
    } else {
        is_pow2(r) && r >= size && r / 2 < size
    }
}

/// `after` is `before` with the front buffer of tier `b` removed, if it had one.
pub open spec fn front_taken(before: Seq<Seq<Seq<u8>>>, b: int, after: Seq<Seq<Seq<u8>>>) -> bool {
    &&& before[b].len() == 0 ==> after == before
    &&& before[b].len() > 0 ==> after == before.update(b, before[b].drop_first())
}

/// `after` is `before` once a buffer holding `buf` with `capacity` bytes of
/// capacity is handed back: below 512 bytes it is dropped; otherwise it joins
/// the back of its tier unless that tier is full.
pub open spec fn released_with_capacity(before: Seq<Seq<Seq<u8>>>, buf: Seq<u8>, capacity: nat, after: Seq<Seq<Seq<u8>>>) -> bool {
    if capacity < MIN_POOLED_CAPACITY {
        after == before
    } else if before[tier_of(capacity)].len() < MAX_POOL_SIZE {
        after == before.update(tier_of(capacity), before[tier_of(capacity)].push(buf))
    } else {
        after == before
    }
}

/// `after` is `before` once `buf` is handed back, for some capacity of at
/// least its length.
pub open spec fn released(before: Seq<Seq<Seq<u8>>>, buf: Seq<u8>, after: Seq<Seq<Seq<u8>>>) -> bool {
    exists|capacity: nat| capacity >= buf.len() && released_with_capacity(before, buf, capacity, after)
}

/// `n` empty buffers appended to a tier.
pub open spec fn with_empties(t: Seq<Seq<u8>>, n: nat) -> Seq<Seq<u8>> {
    t + Seq::new(n, |i: int| Seq::<u8>::empty())
}

/// How many more buffers a tier takes.
pub open spec fn room(t: Seq<Seq<u8>>) -> nat {
    if t.len() < MAX_POOL_SIZE {
        (MAX_POOL_SIZE - t.len()) as nat
    } else {
        0
    }
}

pub open spec fn min_nat(a: nat, b: nat) -> nat {
    if a < b {
        a
    } else {
        b
    }
}

/// `after` is `before` with four empty buffers added to each of the three
/// smallest tiers, as far as they have room.
pub open spec fn prewarmed(before: Seq<Seq<Seq<u8>>>, after: Seq<Seq<Seq<u8>>>) -> bool {
    &&& after.len() == 5
    &&& forall|b: int| 0 <= b < 3 ==> #[trigger] after[b] == with_empties(before[b], min_nat(4, room(before[b])))
    &&& after[3] == before[3]
    &&& after[4] == before[4]
}

/// A buffer released into an empty tier is the one the next request of that
/// tier takes: afterwards every tier is as it was before the release.
pub proof fn lemma_release_then_acquire(
    before: Seq<Seq<Seq<u8>>>,
    buf: Seq<u8>,
    released: Seq<Seq<Seq<u8>>>,
    capacity: nat,
    after: Seq<Seq<Seq<u8>>>,
)
    requires
        before.len() == 5,
        capacity >= MIN_POOLED_CAPACITY,
        before[tier_of(capacity)].len() == 0,
        released_with_capacity(before, buf, capacity, released),
        front_taken(released, tier_of(capacity), after),
    ensures
        after == before,
{
    let b = tier_of(capacity);
    assert(released[b].drop_first() =~= before[b]);
    assert(after =~= before);
}

/// Statistics for buffer pool monitoring: buffers held per tier.
#[derive(Debug, Clone, Copy, PartialEq, Eq, Structural)]
pub struct BufferPoolStats {
    pub tiny_count: usize,
    pub small_count: usize,
    pub medium_count: usize,
    pub large_count: usize,
    pub xlarge_count: usize,
}

/// A pool of reusable byte buffers in five tiers: up to 1 KiB, 4 KiB, 64 KiB,
/// 1 MiB, and larger.
pub struct BufferPool {
    tiny: VecDeque<Vec<u8>>,
    small: VecDeque<Vec<u8>>,
    medium: VecDeque<Vec<u8>>,
    large: VecDeque<Vec<u8>>,
    xlarge: VecDeque<Vec<u8>>,
}

pub open spec fn tier_view(t: Seq<Vec<u8>>) -> Seq<Seq<u8>> {
    t.map_values(|b: Vec<u8>| b@)
}

impl View for BufferPool {
    type V = Seq<Seq<Seq<u8>>>;

    /// The five tiers, front of each queue first.
    closed spec fn view(&self) -> Seq<Seq<Seq<u8>>> {
        seq![
            tier_view(self.tiny@),
            tier_view(self.small@),
            tier_view(self.medium@),
            tier_view(self.large@),
            tier_view(self.xlarge@),
        ]
    }
}

impl BufferPool {
    /// An empty pool.
    pub fn new() -> (r: BufferPool)
        ensures
            r@.len() == 5,
            forall|b: int| 0 <= b < 5 ==> r@[b].len() == 0,
    {
        let r = BufferPool {
            tiny: VecDeque::new(),
            small: VecDeque::new(),
            medium: VecDeque::new(),
            large: VecDeque::new(),
            xlarge: VecDeque::new(),
        };
        assert(tier_view(r.tiny@) =~= Seq::empty());
        assert(tier_view(r.small@) =~= Seq::empty());
        assert(tier_view(r.medium@) =~= Seq::empty());
        assert(tier_view(r.large@) =~= Seq::empty());
        assert(tier_view(r.xlarge@) =~= Seq::empty());
        r
    }

    /// The tier a buffer of `size` bytes belongs to.
    pub fn bucket_for_size(size: usize) -> (r: usize)
        ensures
            r == tier_of(size as nat),
    {
        if size <= TINY {
            0
        } else if size <= SMALL {
            1
        } else if size <= MEDIUM {
            2
        } else if size <= LARGE {
            3
        } else {
            4
        }
    }

    /// The capacity a fresh buffer for a request of `size` bytes gets.
    pub fn round_up_capacity(size: usize) -> (r: usize)
        requires
            size <= MAX_REQUEST,
        ensures
            rounded_capacity(size as nat, r as nat),
            r >= size,
    {
        if size <= TINY {
            TINY
        } else if size <= SMALL {
            SMALL
        } else if size <= MEDIUM {
            MEDIUM
        } else if size <= LARGE {
            LARGE
        } else {
            let mut p: usize = 1;
            while p < size
                invariant
                    is_pow2(p as nat),
                    p == 1 || p / 2 < size,
                    p <= 2 * size,
                    size <= MAX_REQUEST,
                    size > LARGE,
                decreases 2 * size - p,
            {
                assert(is_pow2((p * 2) as nat)) by {
                    assert((p * 2) as nat / 2 == p as nat);
                }
                p = p * 2;
            }
            p
        }
    }

    /// Removes the front buffer of tier `b`, if any.
    fn pop_front(&mut self, b: usize) -> (r: Option<Vec<u8>>)
        requires
            b < 5,
        ensures
            old(self)@[b as int].len() == 0 ==> r is None && final(self)@ == old(self)@,
            old(self)@[b as int].len() > 0 ==> (r matches Some(v) && v@ == old(self)@[b as int][0]
                && final(self)@ == old(self)@.update(b as int, old(self)@[b as int].drop_first())),
    {
        let ghost before = self@;
        let t = if b == 0 {
            &mut self.tiny
        } else if b == 1 {
            &mut self.small
        } else if b == 2 {
            &mut self.medium
        } else if b == 3 {
            &mut self.large
        } else {
            &mut self.xlarge
        };
        if t.len() == 0 {
            return None;
        }
        let ghost old_t = t@;
        let v = t.pop_front().unwrap();
        assert(tier_view(t@) =~= tier_view(old_t).drop_first());
        proof {
            assert(self@ =~= before.update(b as int, before[b as int].drop_first()));
        }
        Some(v)
    }

    /// Appends `buf` to tier `b` if it holds fewer than the maximum.
    fn push_back(&mut self, b: usize, buf: Vec<u8>)
        requires
            b < 5,
        ensures
            old(self)@[b as int].len() < MAX_POOL_SIZE ==> final(self)@ == old(self)@.update(b as int, old(self)@[b as int].push(buf@)),
            old(self)@[b as int].len() >= MAX_POOL_SIZE ==> final(self)@ == old(self)@,
    {
        let ghost before = self@;
        let t = if b == 0 {
            &mut self.tiny
        } else if b == 1 {
            &mut self.small
        } else if b == 2 {
            &mut self.medium
        } else if b == 3 {
            &mut self.large
        } else {
            &mut self.xlarge
        };
        if t.len() < MAX_POOL_SIZE {
            let ghost old_t = t@;
            let ghost content = buf@;
            t.push_back(buf);
            assert(tier_view(t@) =~= tier_view(old_t).push(content));
            proof {
                assert(self@ =~= before.update(b as int, before[b as int].push(content)));
            }
        }
    }

    /// A cleared buffer for at least `capacity` bytes: the front buffer of the
    /// request's tier when it is large enough, else a fresh one of the tier's
    /// rounded capacity. The front buffer leaves the tier either way.
    pub fn get(&mut self, capacity: usize) -> (r: Vec<u8>)
        requires
            capacity <= MAX_REQUEST,
        ensures
            r@.len() == 0,
            final(self)@.len() == 5,
            front_taken(old(self)@, tier_of(capacity as nat), final(self)@),
    {
        let bucket = BufferPool::bucket_for_size(capacity);
        let popped = self.pop_front(bucket);
        match popped {
            Some(mut buf) => {
                buf.clear();
                if vec_capacity(&buf) >= capacity {
                    return buf;
                }
            },
            None => {},
        }
        Vec::with_capacity(BufferPool::round_up_capacity(capacity))
    }

    /// Returns a buffer whose capacity is `capacity` to the pool: below 512
    /// bytes it is dropped; otherwise it joins the back of the tier of its
    /// capacity, unless that tier already holds the maximum.
    pub fn put_with_capacity(&mut self, buf: Vec<u8>, capacity: usize)
        requires
            capacity >= buf@.len(),
        ensures
            released_with_capacity(old(self)@, buf@, capacity as nat, final(self)@),
    {
        if capacity < MIN_POOLED_CAPACITY {
            return;
        }
        let bucket = BufferPool::bucket_for_size(capacity);
        self.push_back(bucket, buf);
    }

    /// Returns a buffer to the tier of its capacity. Buffers under 512 bytes of
    /// capacity, and buffers whose tier is full, are dropped.
    pub fn put(&mut self, buf: Vec<u8>)
        ensures
            released(old(self)@, buf@, final(self)@),
    {
        let capacity = vec_capacity(&buf);
        let ghost content = buf@;
        self.put_with_capacity(buf, capacity);
        assert(released_with_capacity(old(self)@, content, capacity as nat, self@));
    }

    /// Buffers held per tier.
    pub fn stats(&self) -> (r: BufferPoolStats)
        ensures
            r.tiny_count == self@[0].len(),
            r.small_count == self@[1].len(),
            r.medium_count == self@[2].len(),
            r.large_count == self@[3].len(),
            r.xlarge_count == self@[4].len(),
    {
        BufferPoolStats {
            tiny_count: self.tiny.len(),
            small_count: self.small.len(),
            medium_count: self.medium.len(),
            large_count: self.large.len(),
            xlarge_count: self.xlarge.len(),
        }
    }

    /// Puts four fresh empty buffers with the ceiling of each of the three
    /// smallest tiers as capacity into those tiers, as far as they have room,
    /// so first requests find one.
    pub fn prewarm(&mut self)
        ensures
            prewarmed(old(self)@, final(self)@),
    {
        let ghost before = self@;
        let mut i: usize = 0;
        while i < 4
            invariant
                i <= 4,
                before == old(self)@,
                self@.len() == 5,
                forall|b: int| 0 <= b < 3 ==> #[trigger] self@[b] == with_empties(before[b], min_nat(i as nat, room(before[b]))),
                self@[3] == before[3],
                self@[4] == before[4],
            decreases 4 - i,
        {
            let ghost start = self@;
            self.put_with_capacity(Vec::with_capacity(TINY), TINY);
            self.put_with_capacity(Vec::with_capacity(SMALL), SMALL);
            self.put_with_capacity(Vec::with_capacity(MEDIUM), MEDIUM);
            proof {
                assert forall|b: int| 0 <= b < 3 implies #[trigger] self@[b] == with_empties(before[b], min_nat((i + 1) as nat, room(before[b]))) by {
                    let m = min_nat(i as nat, room(before[b]));
                    if start[b].len() < MAX_POOL_SIZE {
                        assert(with_empties(before[b], m).push(Seq::<u8>::empty()) =~= with_empties(before[b], m + 1));
                    }
                }
            }
            i = i + 1;
        }
    }
}

impl Default for BufferPool {
    fn default() -> (r: Self)
        ensures
            r@.len() == 5,
            forall|b: int| 0 <= b < 5 ==> r@[b].len() == 0,
    {
        BufferPool::new()
    }
}

/// A buffer borrowed for a hot path, handed back to a pool with
/// [`PooledBuffer::release`] or kept with [`PooledBuffer::take`].
pub struct PooledBuffer {
    buf: Option<Vec<u8>>,
}

impl View for PooledBuffer {
    type V = Seq<u8>;

    closed spec fn view(&self) -> Seq<u8> {
        match self.buf {
            Some(b) => b@,
            None => Seq::empty(),
        }
    }
}

impl PooledBuffer {
    /// Whether the buffer is still held.
    pub closed spec fn has_buffer(&self) -> bool {
        self.buf is Some
    }

    /// A fresh empty buffer sized to the tier of `capacity`.
    pub fn with_capacity(capacity: usize) -> (r: PooledBuffer)
        requires
            capacity <= MAX_REQUEST,
        ensures
            r.has_buffer(),
            r@.len() == 0,
    {
        PooledBuffer { buf: Some(Vec::with_capacity(BufferPool::round_up_capacity(capacity))) }
    }

    /// A cleared buffer for `capacity` bytes taken from `pool`.
    pub fn acquire(pool: &mut BufferPool, capacity: usize) -> (r: PooledBuffer)
        requires
            capacity <= MAX_REQUEST,
        ensures
            r.has_buffer(),
            r@.len() == 0,
            front_taken(old(pool)@, tier_of(capacity as nat), final(pool)@),
    {
        PooledBuffer { buf: Some(pool.get(capacity)) }
    }

    /// Hands the buffer back to `pool`, under the rules of [`BufferPool::put`].
    pub fn release(self, pool: &mut BufferPool)
        ensures
            self.has_buffer() ==> released(old(pool)@, self@, final(pool)@),
            !self.has_buffer() ==> final(pool)@ == old(pool)@,
    {
        match self.buf {
            Some(b) => pool.put(b),
            None => {},
        }
    }

    /// Mutable access to the buffer.
    pub fn buffer_mut(&mut self) -> (r: &mut Vec<u8>)
        requires
            old(self).has_buffer(),
        ensures
            r@ == old(self)@,
            final(self).has_buffer(),
            final(self)@ == final(r)@,
    {
        self.buf.as_mut().unwrap()
    }

    /// Read access to the buffer.
    pub fn buffer(&self) -> (r: &Vec<u8>)
        requires
            self.has_buffer(),
        ensures
            r@ == self@,
    {
        self.buf.as_ref().unwrap()
    }

    /// Takes the buffer out for good.
    pub fn take(self) -> (r: Vec<u8>)
        requires
            self.has_buffer(),
        ensures
            r@ == self@,
    {
        self.buf.unwrap()
    }
}

} // verus!
