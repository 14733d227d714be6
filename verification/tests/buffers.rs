//! Batched strings and reused buffers.

use ingrid_core::buffers::{BatchedStrings, StringBufferPool};

#[test]
fn strings_are_batched() {
    let mut batch = BatchedStrings::new();
    assert_eq!(batch.len(), 0);
    let strings = ["grid", "", "äöü\u{1f600}", "a\nb"];
    for (index, string) in strings.iter().enumerate() {
        assert_eq!(batch.add(string), index);
    }
    assert_eq!(batch.len(), 4);
    for (index, string) in strings.iter().enumerate() {
        assert_eq!(batch.get(index), *string);
    }
    let mut roomy = BatchedStrings::with_capacity(100);
    assert_eq!(roomy.len(), 0);
    assert_eq!(roomy.add("x"), 0);
    assert_eq!(roomy.get(0), "x");
}

fn sizes(pool: &StringBufferPool) -> (usize, usize, usize) {
    (
        pool.small_buffers.len(),
        pool.medium_buffers.len(),
        pool.large_buffers.len(),
    )
}

#[test]
fn buffers_are_pooled_by_size() {
    let mut pool = StringBufferPool::new();
    assert_eq!(sizes(&pool), (0, 0, 0));
    assert!(pool.get_buffer(2000).capacity() >= 2000);
    pool.initialize();
    assert_eq!(sizes(&pool), (10, 5, 2));
    let small = pool.get_buffer(1023);
    assert!(small.is_empty());
    assert_eq!(sizes(&pool), (9, 5, 2));
    let medium = pool.get_buffer(1024);
    assert!(medium.capacity() >= 10 * 1024);
    assert_eq!(sizes(&pool), (9, 4, 2));
    let large = pool.get_buffer(10 * 1024);
    assert!(large.capacity() >= 100 * 1024);
    assert_eq!(sizes(&pool), (9, 4, 1));
    // Buffers that are returned are empty when they are used again.
    let mut used = String::with_capacity(16);
    used.push_str("grid");
    let before = sizes(&pool);
    pool.return_buffer(used);
    let after = sizes(&pool);
    assert_eq!(after.0 + after.1 + after.2, before.0 + before.1 + before.2 + 1);
    assert!(pool.small_buffers.iter().all(|buffer| buffer.is_empty()));
}

#[test]
fn pooled_buffers_are_used_again() {
    let mut pool = StringBufferPool::new();
    let mut used = String::with_capacity(5000);
    used.push_str("grid");
    let capacity = used.capacity();
    let place = used.as_ptr();
    pool.return_buffer(used);
    let again = pool.get_buffer(4000);
    assert!(again.is_empty());
    assert_eq!((again.capacity(), again.as_ptr()), (capacity, place));
    // A buffer without enough room is not handed out.
    pool.return_sized_buffer(again, 5000);
    assert!(pool.get_buffer(9000).capacity() >= 9000);
    pool.initialize();
    assert!(pool.get_buffer(500000).capacity() >= 500000);
    // Buffers that were there stay.
    pool.return_sized_buffer(String::from("x"), 10);
    let kept = pool.small_buffers.len();
    pool.initialize();
    assert_eq!(pool.small_buffers.len(), kept + 10);
    assert!(pool.small_buffers[kept].capacity() >= 1024);
}

#[test]
fn pools_are_limited() {
    let mut pool = StringBufferPool::new();
    for _ in 0..30 {
        pool.return_sized_buffer(String::from("x"), 1023);
        pool.return_sized_buffer(String::from("x"), 1024);
        pool.return_sized_buffer(String::from("x"), 102399);
        pool.return_sized_buffer(String::from("x"), 102400);
    }
    assert_eq!(sizes(&pool), (20, 10, 5));
    assert!(pool.large_buffers.iter().all(|buffer| buffer.is_empty()));
    pool.return_sized_buffer(String::new(), 10239);
    pool.return_sized_buffer(String::new(), 10240);
    assert_eq!(sizes(&pool), (20, 10, 5));
}
