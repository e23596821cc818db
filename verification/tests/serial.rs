use hello_serial::utils::io::read::{ReadAction, SerialRead};
use hello_serial::utils::io::write::{flush_action, FlushAction, SerialWrite, WriteAction};
use hello_serial::poll::Poll;

/// Runs one serial `poll_read` over a buffer of `len` bytes while the receiver
/// answers `answers` in turn.
fn fill(len: usize, answers: Vec<Poll<Result<u8, &'static str>>>) -> (Vec<u8>, ReadAction<&'static str>, usize) {
    let mut buf = vec![0u8; len];
    let mut answers = answers.into_iter();
    let mut fetched = 0;
    let mut state = SerialRead::new(len);
    let mut action = state.action();
    while let ReadAction::Fetch = action {
        fetched += 1;
        action = state.feed(&mut buf, answers.next().unwrap());
    }
    (buf, action, fetched)
}

#[test]
fn fill_stores_bytes_until_the_receiver_is_empty() {
    let (buf, action, fetched) = fill(
        5,
        vec![Poll::Ready(Ok(b'a')), Poll::Ready(Ok(b'b')), Poll::Ready(Ok(b'c')), Poll::Pending],
    );
    assert_eq!(buf, vec![b'a', b'b', b'c', 0, 0]);
    assert_eq!(action, ReadAction::Ready(Ok(3)));
    assert_eq!(fetched, 4);
}

#[test]
fn fill_without_bytes_listens() {
    let (buf, action, _) = fill(3, vec![Poll::Pending]);
    assert_eq!(buf, vec![0, 0, 0]);
    assert_eq!(action, ReadAction::Listen);
}

#[test]
fn fill_stops_when_the_buffer_is_full() {
    let (buf, action, fetched) = fill(
        2,
        vec![Poll::Ready(Ok(1)), Poll::Ready(Ok(2)), Poll::Ready(Ok(3))],
    );
    assert_eq!(buf, vec![1, 2]);
    assert_eq!(action, ReadAction::Ready(Ok(2)));
    assert_eq!(fetched, 2);
}

#[test]
fn fill_passes_the_receiver_error_on() {
    let (buf, action, _) = fill(4, vec![Poll::Ready(Ok(9)), Poll::Ready(Err("overrun"))]);
    assert_eq!(buf, vec![9, 0, 0, 0]);
    assert_eq!(action, ReadAction::Ready(Err("overrun")));
}

#[test]
fn fill_of_an_empty_buffer_is_ready_at_once() {
    let (_, action, fetched) = fill(0, vec![]);
    assert_eq!(action, ReadAction::Ready(Ok(0)));
    assert_eq!(fetched, 0);
}

/// Runs one serial `poll_write` of `buf` while the transmitter answers
/// `answers` in turn; gives the bytes it took and the final action.
fn transfer(buf: &[u8], answers: Vec<Poll<Result<(), &'static str>>>) -> (Vec<u8>, WriteAction<&'static str>) {
    let mut answers = answers.into_iter();
    let mut taken = Vec::new();
    let mut state = SerialWrite::new(buf.len());
    let mut action = state.action(buf);
    while let WriteAction::Put(byte) = action {
        let answer = answers.next().unwrap();
        if answer == Poll::Ready(Ok(())) {
            taken.push(byte);
        }
        action = state.feed(buf, answer);
    }
    (taken, action)
}

#[test]
fn transfer_sends_the_buffer_in_order() {
    let (taken, action) = transfer(b"hey", vec![Poll::Ready(Ok(())); 3]);
    assert_eq!(taken, b"hey".to_vec());
    assert_eq!(action, WriteAction::Ready(Ok(3)));
}

#[test]
fn transfer_stops_when_the_transmitter_is_busy() {
    let (taken, action) = transfer(b"hello", vec![Poll::Ready(Ok(())), Poll::Ready(Ok(())), Poll::Pending]);
    assert_eq!(taken, b"he".to_vec());
    assert_eq!(action, WriteAction::Ready(Ok(2)));
}

#[test]
fn transfer_with_a_busy_transmitter_listens() {
    let (taken, action) = transfer(b"x", vec![Poll::Pending]);
    assert!(taken.is_empty());
    assert_eq!(action, WriteAction::Listen);
}

#[test]
fn transfer_passes_the_transmitter_error_on() {
    let (taken, action) = transfer(b"ab", vec![Poll::Ready(Ok(())), Poll::Ready(Err("framing"))]);
    assert_eq!(taken, b"a".to_vec());
    assert_eq!(action, WriteAction::Ready(Err("framing")));
}

#[test]
fn flush_passes_results_on_and_listens_while_busy() {
    assert_eq!(flush_action::<u8>(Poll::Ready(Ok(()))), FlushAction::Ready(Ok(())));
    assert_eq!(flush_action::<u8>(Poll::Ready(Err(3))), FlushAction::Ready(Err(3)));
    assert_eq!(flush_action::<u8>(Poll::Pending), FlushAction::Listen);
}
