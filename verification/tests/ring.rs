use ziponline::ring_buf::RingBuffer;

#[test]
fn new_buffer_is_empty() {
    let buffer: RingBuffer<4> = RingBuffer::new();
    assert!(buffer.as_slice().is_empty());
}

#[test]
fn buffer_without_room_is_empty() {
    let buffer: RingBuffer<0> = RingBuffer::new();
    assert!(buffer.as_slice().is_empty());
}

#[test]
fn bytes_are_kept_in_order() {
    let mut buffer: RingBuffer<3> = RingBuffer::new();
    assert_eq!(buffer.push(1), None);
    assert_eq!(buffer.as_slice(), &[1]);
    assert_eq!(buffer.push(2), None);
    assert_eq!(buffer.push(3), None);
    assert_eq!(buffer.as_slice(), &[1, 2, 3]);
}

#[test]
fn full_buffer_gives_back_the_oldest() {
    let mut buffer: RingBuffer<3> = RingBuffer::new();
    for value in 1..=3 {
        buffer.push(value);
    }
    assert_eq!(buffer.push(4), Some(1));
    assert_eq!(buffer.push(5), Some(2));
    assert_eq!(buffer.as_slice(), &[3, 4, 5]);
}

#[test]
fn cleared_buffer_begins_anew() {
    let mut buffer: RingBuffer<2> = RingBuffer::new();
    buffer.push(1);
    buffer.push(2);
    buffer.clear();
    assert!(buffer.as_slice().is_empty());
    assert_eq!(buffer.push(3), None);
    assert_eq!(buffer.push(4), None);
    assert_eq!(buffer.push(5), Some(3));
    assert_eq!(buffer.as_slice(), &[4, 5]);
}

#[test]
fn buffer_holds_the_last_bytes_pushed() {
    let mut buffer: RingBuffer<5> = RingBuffer::new();
    let pushed: Vec<u8> = (0..100).collect();
    for (i, value) in pushed.iter().enumerate() {
        buffer.push(*value);
        let from = if i + 1 > 5 { i + 1 - 5 } else { 0 };
        assert_eq!(buffer.as_slice(), &pushed[from..=i]);
    }
}
