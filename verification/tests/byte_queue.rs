use tsdemux::internal::byte_queue::ByteQueue;

fn make_buf(start: u8, count: usize) -> Vec<u8> {
    let mut v = Vec::with_capacity(count);
    for i in 0..count {
        v.push(((start as usize) + i) as u8);
    }
    v
}

#[test]
fn write_and_pop() {
    let mut q = ByteQueue::new();
    q.write(make_buf(0, 256).as_slice());
    q.write(make_buf(0, 256).as_slice());
    q.pop(384);

    assert_eq!(q.len(), 128);
    assert_eq!(q.as_slice()[0], 128);
    assert_eq!(q.as_slice()[127], 255);
}

#[test]
fn byte_queue_wrap() {
    let mut q = ByteQueue::new();
    q.write(make_buf(0, 256).as_slice());
    q.write(make_buf(0, 256).as_slice());
    q.pop(384);
    q.write(make_buf(0, 368).as_slice());

    {
        let mut expected = make_buf(128, 128);
        expected.extend(make_buf(0, 368));
        assert_eq!(&q.as_slice()[..], &expected[..]);
    }
    q.pop(128);

    assert_eq!(&q.as_slice()[..], make_buf(0, 368).as_slice());
}

#[test]
fn head_counts_popped_bytes() {
    let mut q = ByteQueue::new();
    assert_eq!(q.head(), 0);
    q.write(&[1, 2, 3, 4, 5]);
    assert_eq!(q.head(), 0);
    q.pop(2);
    assert_eq!(q.head(), 2);
    assert_eq!(q.as_slice(), &[3, 4, 5]);
    q.pop(3);
    assert_eq!(q.head(), 5);
    assert_eq!(q.len(), 0);
    q.write(&[6, 7]);
    q.pop_all();
    assert_eq!(q.head(), 7);
    assert_eq!(q.len(), 0);
}

#[test]
fn many_small_writes_keep_the_order() {
    let mut q = ByteQueue::new();
    let mut expected: Vec<u8> = Vec::new();
    let mut next: u8 = 0;
    for round in 0..200usize {
        let chunk: Vec<u8> = (0..(round % 7 + 1)).map(|_| {
            next = next.wrapping_add(1);
            next
        }).collect();
        q.write(&chunk);
        expected.extend(chunk);
        let take = if round % 3 == 0 { q.len() / 2 } else { 1.min(q.len()) };
        q.pop(take);
        expected.drain(..take);
        assert_eq!(q.as_slice(), &expected[..]);
    }
}
