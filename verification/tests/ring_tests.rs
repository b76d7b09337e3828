use pipebuffer::ring::RingBuffer;

#[test]
fn test_ring_scenario_capacity_four() {
    let mut rb = RingBuffer::new(4);
    assert!(rb.is_empty());
    assert!(!rb.is_full());

    let n = rb.put(b"AB");
    assert_eq!(n, 2);
    assert!(!rb.is_empty());
    assert!(!rb.is_full());

    // Only room for "CD"; "E" is not accepted and must be retried.
    let n = rb.put(b"CDE");
    assert_eq!(n, 2);
    assert!(rb.is_full());

    let mut dest = vec![0u8; 3];
    let n = rb.get(&mut dest);
    assert_eq!(n, 3);
    assert_eq!(&dest[..], b"ABC");
    assert!(!rb.is_full());
    assert!(!rb.is_empty());

    let n = rb.put(b"E");
    assert_eq!(n, 1);

    let mut dest = vec![0u8; 4];
    let n = rb.get(&mut dest);
    assert_eq!(n, 2);
    assert_eq!(&dest[..2], b"DE");
    assert!(rb.is_empty());
}

#[test]
fn test_ring_wraparound_many_cycles() {
    // A capacity that does not divide the chunk size forces the spans of
    // later puts and gets to cross the end of the backing storage.
    let mut rb = RingBuffer::new(5);
    let mut fed: Vec<u8> = Vec::new();
    let mut drained: Vec<u8> = Vec::new();
    let mut counter: u8 = 0;
    for _cycle in 0..13 {
        let mut chunk = Vec::new();
        for _ in 0..3 {
            chunk.push(counter);
            counter = counter.wrapping_add(1);
        }
        let n = rb.put(&chunk);
        assert_eq!(n, 3);
        fed.extend_from_slice(&chunk);

        let mut dest = vec![0u8; 3];
        let n = rb.get(&mut dest);
        assert_eq!(n, 3);
        drained.extend_from_slice(&dest[..3]);
    }
    // FIFO end to end: what came out is exactly what went in, in order.
    assert_eq!(drained, fed);
}

#[test]
fn test_ring_fifo_interleaved() {
    let mut rb = RingBuffer::new(4);
    let mut accepted: Vec<u8> = Vec::new();
    let mut delivered: Vec<u8> = Vec::new();
    let script: &[(&[u8], usize)] = &[
        (b"abc", 1),
        (b"defg", 2),
        (b"", 1),
        (b"hij", 0),
        (b"klmno", 3),
        (b"", 4),
    ];
    for (data, want) in script {
        let n = rb.put(data);
        accepted.extend_from_slice(&data[..n]);
        let mut dest = vec![0u8; *want];
        let k = rb.get(&mut dest);
        delivered.extend_from_slice(&dest[..k]);
    }
    // Drain the rest.
    let mut dest = vec![0u8; 4];
    let k = rb.get(&mut dest);
    delivered.extend_from_slice(&dest[..k]);
    assert_eq!(delivered, accepted);
}

#[test]
fn test_ring_get_leaves_tail_of_dest() {
    let mut rb = RingBuffer::new(8);
    assert_eq!(rb.put(b"xy"), 2);
    let mut dest = vec![9u8; 5];
    let n = rb.get(&mut dest);
    assert_eq!(n, 2);
    assert_eq!(&dest[..], &[b'x', b'y', 9, 9, 9]);
}

#[test]
fn test_ring_close_idempotent() {
    let mut rb = RingBuffer::new(4);
    assert!(!rb.is_closed());
    rb.put(b"ab");
    rb.close();
    assert!(rb.is_closed());
    // Closing again changes nothing observable.
    rb.close();
    assert!(rb.is_closed());
    // Already-buffered bytes remain readable after a close.
    let mut dest = vec![0u8; 4];
    let n = rb.get(&mut dest);
    assert_eq!(n, 2);
    assert_eq!(&dest[..2], b"ab");
    assert!(rb.is_closed());
    assert!(rb.is_empty());
}

#[test]
fn test_ring_full_empty_exclusive() {
    let mut rb = RingBuffer::new(2);
    assert!(rb.is_empty() && !rb.is_full());
    rb.put(b"a");
    assert!(!rb.is_empty() && !rb.is_full());
    rb.put(b"b");
    assert!(!rb.is_empty() && rb.is_full());
    let mut dest = vec![0u8; 2];
    rb.get(&mut dest);
    assert!(rb.is_empty() && !rb.is_full());
}

#[test]
fn test_ring_zero_capacity() {
    // With capacity 0 the buffer is both full and empty, and accepts nothing.
    let mut rb = RingBuffer::new(0);
    assert!(rb.is_empty());
    assert!(rb.is_full());
    assert_eq!(rb.put(b"abc"), 0);
    let mut dest = vec![0u8; 3];
    assert_eq!(rb.get(&mut dest), 0);
    assert_eq!(&dest[..], &[0, 0, 0]);
}

#[test]
fn test_ring_put_when_full_returns_zero() {
    let mut rb = RingBuffer::new(3);
    assert_eq!(rb.put(b"abc"), 3);
    assert_eq!(rb.put(b"d"), 0);
    let mut dest = vec![0u8; 1];
    assert_eq!(rb.get(&mut dest), 1);
    assert_eq!(dest[0], b'a');
    assert_eq!(rb.put(b"d"), 1);
    let mut dest = vec![0u8; 3];
    assert_eq!(rb.get(&mut dest), 3);
    assert_eq!(&dest[..], b"bcd");
}
