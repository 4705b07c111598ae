use perple::config::STREAM_CAPACITY;
use perple::utils::stream::Stream;
use perple::utils::stream::StreamError;

#[test]
fn fifo_round_trip_keeps_order() {
    let mut s: Stream<u32> = Stream::new();
    assert!(!s.has_data());
    assert_eq!(s.write(10), Ok(()));
    assert_eq!(s.write(20), Ok(()));
    assert_eq!(s.write(30), Ok(()));
    assert!(s.has_data());
    assert_eq!(s.read(), Some(10));
    assert_eq!(s.read(), Some(20));
    assert_eq!(s.read(), Some(30));
    assert_eq!(s.read(), None);
    assert!(!s.has_data());
}

#[test]
fn fifo_survives_wraparound() {
    let mut s: Stream<usize> = Stream::new();
    // Drive the cursors around the ring several times.
    let mut next_write: usize = 0;
    let mut next_read: usize = 0;
    for _round in 0..5 {
        while next_write < next_read + STREAM_CAPACITY - 1 {
            assert_eq!(s.write(next_write), Ok(()));
            next_write += 1;
        }
        assert_eq!(s.write(next_write), Err(StreamError::Full));
        while next_read < next_write {
            assert_eq!(s.read(), Some(next_read));
            next_read += 1;
        }
        assert_eq!(s.read(), None);
    }
}

#[test]
fn write_to_full_stream_changes_nothing() {
    let mut s: Stream<u32> = Stream::new();
    for i in 0..(STREAM_CAPACITY as u32 - 1) {
        assert_eq!(s.write(i), Ok(()));
    }
    // One slot stays free: the next write is rejected ...
    assert_eq!(s.write(999), Err(StreamError::Full));
    assert_eq!(s.write(1000), Err(StreamError::Full));
    // ... and the contents are exactly the accepted items, in order.
    for i in 0..(STREAM_CAPACITY as u32 - 1) {
        assert_eq!(s.read(), Some(i));
    }
    assert_eq!(s.read(), None);
}

#[test]
fn acquire_commit_publishes_in_order() {
    let mut s: Stream<u32> = Stream::new();
    match s.get_write_mut() {
        Ok(slot) => {
            *slot = Some(7);
        }
        Err(_) => panic!("a fresh stream has a free slot"),
    }
    assert_eq!(s.commit_write(), Ok(()));
    match s.get_write_mut() {
        Ok(slot) => {
            *slot = Some(8);
        }
        Err(_) => panic!("a nearly empty stream has a free slot"),
    }
    assert_eq!(s.commit_write(), Ok(()));
    assert_eq!(s.read(), Some(7));
    assert_eq!(s.read(), Some(8));
    assert_eq!(s.read(), None);
}

#[test]
fn read_side_peek_and_commit() {
    let mut s: Stream<u32> = Stream::new();
    assert!(matches!(s.get_read_ref(), None));
    assert_eq!(s.commit_read(), Err(StreamError::Empty));
    assert_eq!(s.write(42), Ok(()));
    match s.get_read_ref() {
        Some(slot) => assert_eq!(*slot, Some(42)),
        None => panic!("the stream holds an item"),
    }
    assert_eq!(s.commit_read(), Ok(()));
    assert!(!s.has_data());
    assert_eq!(s.commit_read(), Err(StreamError::Empty));
}
