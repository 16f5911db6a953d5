use lending_async_iter::poll::Poll;
use lending_async_iter::unsafe_pinned::UnsafePinned;

#[test]
fn new_then_into_inner_gives_the_value_back() {
    let cell = UnsafePinned::new(41);
    assert_eq!(cell.into_inner(), 41);
}

#[test]
fn get_reads_the_wrapped_value() {
    let cell = UnsafePinned::new(String::from("lent"));
    assert_eq!(cell.get().as_str(), "lent");
    assert_eq!(UnsafePinned::raw_get(&cell).as_str(), "lent");
}

#[test]
fn writes_through_get_mut_unchecked_are_kept() {
    let mut cell = UnsafePinned::new(vec![1, 2]);
    cell.get_mut_unchecked().push(3);
    assert_eq!(*cell.get(), vec![1, 2, 3]);
    UnsafePinned::raw_get_mut(&mut cell).push(4);
    assert_eq!(cell.into_inner(), vec![1, 2, 3, 4]);
}

#[test]
fn poll_reports_readiness() {
    let ready: Poll<u8> = Poll::Ready(3);
    let pending: Poll<u8> = Poll::Pending;
    assert!(ready.is_ready());
    assert!(!ready.is_pending());
    assert!(pending.is_pending());
    assert!(!pending.is_ready());
}
