use clickhouse_arrow::pool::{BufferPool, PooledBuffer};

#[test]
fn test_buffer_pool_basic() {
    let mut pool = BufferPool::new();
    let buf1 = pool.get(100);
    assert!(buf1.capacity() >= 100);

    let buf2 = pool.get(50000);
    assert!(buf2.capacity() >= 50000);

    pool.put(buf1);
    pool.put(buf2);

    let buf3 = pool.get(100);
    assert!(buf3.capacity() >= 100);
}

#[test]
fn test_pooled_buffer_raii() {
    let mut pool = BufferPool::new();
    {
        let mut buf = PooledBuffer::with_capacity(1000);
        buf.buffer_mut().extend_from_slice(b"hello");
        assert_eq!(buf.buffer().as_slice(), b"hello");
        buf.release(&mut pool);
    }
    assert_eq!(pool.stats().tiny_count, 1);
}

#[test]
fn tiers_and_rounding() {
    assert_eq!(BufferPool::bucket_for_size(0), 0);
    assert_eq!(BufferPool::bucket_for_size(1024), 0);
    assert_eq!(BufferPool::bucket_for_size(1025), 1);
    assert_eq!(BufferPool::bucket_for_size(4096), 1);
    assert_eq!(BufferPool::bucket_for_size(65536), 2);
    assert_eq!(BufferPool::bucket_for_size(1 << 20), 3);
    assert_eq!(BufferPool::bucket_for_size((1 << 20) + 1), 4);
    assert_eq!(BufferPool::round_up_capacity(1), 1024);
    assert_eq!(BufferPool::round_up_capacity(2000), 4096);
    assert_eq!(BufferPool::round_up_capacity(50000), 65536);
    assert_eq!(BufferPool::round_up_capacity(70000), 1 << 20);
    assert_eq!(BufferPool::round_up_capacity((1 << 20) + 1), 1 << 21);
    assert_eq!(BufferPool::round_up_capacity(3 << 20), 4 << 20);
    assert_eq!(BufferPool::round_up_capacity(4 << 20), 4 << 20);
}

#[test]
fn released_buffer_is_reused() {
    let mut pool = BufferPool::new();
    let mut buf = pool.get(3000);
    buf.extend_from_slice(&[1, 2, 3]);
    let ptr = buf.as_ptr();
    pool.put(buf);
    assert_eq!(pool.stats().small_count, 1);
    let again = pool.get(3000);
    assert_eq!(again.as_ptr(), ptr);
    assert!(again.is_empty());
    assert!(again.capacity() >= 3000);
    assert_eq!(pool.stats().small_count, 0);
}

#[test]
fn small_buffers_are_not_pooled_and_tiers_are_bounded() {
    let mut pool = BufferPool::new();
    pool.put(Vec::with_capacity(100));
    assert_eq!(pool.stats().tiny_count, 0);
    for _ in 0..40 {
        pool.put(Vec::with_capacity(1024));
    }
    assert_eq!(pool.stats().tiny_count, 32);
}

#[test]
fn prewarm_fills_three_smallest_tiers() {
    let mut pool = BufferPool::new();
    pool.prewarm();
    let stats = pool.stats();
    assert_eq!(stats.tiny_count, 4);
    assert_eq!(stats.small_count, 4);
    assert_eq!(stats.medium_count, 4);
    assert_eq!(stats.large_count, 0);
    assert_eq!(stats.xlarge_count, 0);
}

#[test]
fn take_keeps_contents() {
    let mut pool = BufferPool::new();
    let mut buf = PooledBuffer::acquire(&mut pool, 10);
    buf.buffer_mut().push(42);
    assert_eq!(buf.take(), vec![42]);
}
