use lending_async_iter::embassy_net::TcpReaderLendingAsyncIterator;
use lending_async_iter::poll::Poll;

type Reader = TcpReaderLendingAsyncIterator<&'static str, u32, 8>;

/// Runs one read that writes `data` at the offset the iterator asks for.
fn read(it: &mut Reader, data: &[u8]) -> (usize, Vec<u8>, Option<Vec<u8>>) {
    assert!(it.is_idle());
    let (reader, mut buffer, pos) = it.start_read();
    assert!(!it.is_idle());
    it.set_future(7);
    assert!(it.is_reading());
    assert_eq!(*it.future_mut(), 7);
    buffer[pos..pos + data.len()].copy_from_slice(data);
    let compacted = buffer.to_vec();
    let item = match it.handle_future_result::<()>(Ok(data.len()), reader, buffer) {
        Poll::Ready(Some(Ok(bytes))) => Some(bytes.to_vec()),
        Poll::Ready(None) => None,
        other => panic!("unexpected {:?}", other.is_pending()),
    };
    assert!(it.is_idle());
    (pos, compacted, item)
}

#[test]
fn a_new_reader_is_idle_and_reads_at_zero() {
    let mut it = Reader::new("socket");
    let (reader, buffer, pos) = it.start_read();
    assert_eq!(reader, "socket");
    assert_eq!(buffer, [0u8; 8]);
    assert_eq!(pos, 0);
}

#[test]
fn each_read_lends_exactly_the_bytes_read() {
    let mut it = Reader::new("socket");
    let (pos, _, item) = read(&mut it, &[1, 2, 3]);
    assert_eq!(pos, 0);
    assert_eq!(item, Some(vec![1, 2, 3]));
    let (pos, _, item) = read(&mut it, &[4]);
    assert_eq!(pos, 3);
    assert_eq!(item, Some(vec![4]));
}

#[test]
fn past_half_the_buffer_the_tail_moves_to_the_front() {
    let mut it = Reader::new("socket");
    let (_, _, item) = read(&mut it, &[1, 2, 3, 4, 5]);
    assert_eq!(item, Some(vec![1, 2, 3, 4, 5]));
    // pos is 5 > 8 / 2: the bytes from 5 on move to the front, and the read
    // starts at 0.
    let (pos, compacted, item) = read(&mut it, &[9, 9]);
    assert_eq!(pos, 0);
    assert_eq!(compacted, vec![9, 9, 0, 4, 5, 0, 0, 0]);
    assert_eq!(item, Some(vec![9, 9]));
}

#[test]
fn at_half_the_buffer_nothing_moves() {
    let mut it = Reader::new("socket");
    read(&mut it, &[1, 2, 3, 4]);
    let (pos, compacted, item) = read(&mut it, &[5, 6, 7, 8]);
    assert_eq!(pos, 4);
    assert_eq!(compacted, vec![1, 2, 3, 4, 5, 6, 7, 8]);
    assert_eq!(item, Some(vec![5, 6, 7, 8]));
}

#[test]
fn reading_nothing_ends_the_stream() {
    let mut it = Reader::new("socket");
    read(&mut it, &[1, 2]);
    let (pos, _, item) = read(&mut it, &[]);
    assert_eq!(pos, 2);
    assert_eq!(item, None);
    // The position did not move.
    let (pos, _, _) = read(&mut it, &[3]);
    assert_eq!(pos, 2);
}

#[test]
fn an_error_is_handed_on_and_the_position_stays() {
    let mut it = Reader::new("socket");
    read(&mut it, &[1]);
    let (reader, buffer, pos) = it.start_read();
    assert_eq!(pos, 1);
    match it.handle_future_result(Err("reset"), reader, buffer) {
        Poll::Ready(Some(Err(e))) => assert_eq!(e, "reset"),
        _ => panic!("the error is lost"),
    }
    let (_, _, pos) = it.start_read();
    assert_eq!(pos, 1);
}
