use charlotte_os::data_struct::ring_buf::RingBuffer;

#[test]
fn new_buffer_is_empty() {
    let rb: RingBuffer<u8, 4> = RingBuffer::new();
    assert_eq!(rb.len(), 0);
    assert!(rb.is_empty());
    assert!(!rb.is_full());
    assert_eq!(rb.capacity(), 4);
}

#[test]
fn items_come_out_in_the_order_they_went_in() {
    let mut rb: RingBuffer<u32, 4> = RingBuffer::new();
    assert_eq!(rb.push(10), Ok(()));
    assert_eq!(rb.push(20), Ok(()));
    assert_eq!(rb.push(30), Ok(()));
    assert_eq!(rb.len(), 3);
    assert_eq!(rb.pop(), Some(10));
    assert_eq!(rb.pop(), Some(20));
    assert_eq!(rb.pop(), Some(30));
    assert_eq!(rb.pop(), None);
    assert!(rb.is_empty());
}

#[test]
fn full_buffer_hands_the_item_back() {
    let mut rb: RingBuffer<u8, 2> = RingBuffer::new();
    assert_eq!(rb.push(1), Ok(()));
    assert_eq!(rb.push(2), Ok(()));
    assert!(rb.is_full());
    assert_eq!(rb.push(3), Err(3));
    assert_eq!(rb.len(), 2);
    assert_eq!(rb.pop(), Some(1));
    assert_eq!(rb.pop(), Some(2));
}

#[test]
fn indices_wrap_around() {
    let mut rb: RingBuffer<usize, 3> = RingBuffer::new();
    for round in 0..10usize {
        assert_eq!(rb.push(round), Ok(()));
        assert_eq!(rb.push(round + 100), Ok(()));
        assert_eq!(rb.pop(), Some(round));
        assert_eq!(rb.pop(), Some(round + 100));
        assert!(rb.is_empty());
    }
    assert_eq!(rb.push(7), Ok(()));
    assert_eq!(rb.push(8), Ok(()));
    assert_eq!(rb.push(9), Ok(()));
    assert_eq!(rb.push(10), Err(10));
    assert_eq!(rb.pop(), Some(7));
    assert_eq!(rb.push(10), Ok(()));
    assert_eq!(rb.pop(), Some(8));
    assert_eq!(rb.pop(), Some(9));
    assert_eq!(rb.pop(), Some(10));
    assert_eq!(rb.pop(), None);
}

#[test]
fn buffer_without_capacity_takes_nothing() {
    let mut rb: RingBuffer<u8, 0> = RingBuffer::new();
    assert!(rb.is_empty());
    assert!(rb.is_full());
    assert_eq!(rb.capacity(), 0);
    assert_eq!(rb.push(1), Err(1));
    assert_eq!(rb.pop(), None);
}

#[test]
fn buffer_holds_values_that_are_not_copy() {
    let mut rb: RingBuffer<String, 2> = RingBuffer::new();
    assert!(rb.push(String::from("a")).is_ok());
    assert!(rb.push(String::from("b")).is_ok());
    assert_eq!(rb.push(String::from("c")), Err(String::from("c")));
    assert_eq!(rb.pop(), Some(String::from("a")));
    assert_eq!(rb.pop(), Some(String::from("b")));
}
