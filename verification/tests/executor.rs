use hello_serial::executor::{resume, BlockOn, EmbedWaker, Executor};
use hello_serial::poll::Poll;

#[test]
fn resume_polls_after_a_wake_up() {
    assert_eq!(resume::<u8>(true), BlockOn::Poll);
    assert_eq!(resume::<u8>(false), BlockOn::Sleep);
}

#[test]
fn block_on_starts_with_a_poll() {
    let executor = Executor::new();
    assert_eq!(executor.start::<u8>(), BlockOn::Poll);
}

#[test]
fn ready_future_ends_block_on_with_its_output() {
    let executor = Executor::new();
    assert_eq!(executor.polled(Poll::Ready(42u32)), BlockOn::Done(42));
    executor.waker().wake();
    assert_eq!(executor.polled(Poll::Ready(7u32)), BlockOn::Done(7));
}

#[test]
fn pending_future_without_wake_up_sleeps() {
    let executor = Executor::new();
    assert_eq!(executor.polled(Poll::<u32>::Pending), BlockOn::Sleep);
    assert_eq!(executor.idle::<u32>(), BlockOn::Sleep);
}

#[test]
fn pending_future_after_wake_up_is_polled_again() {
    let executor = Executor::new();
    executor.waker().wake();
    assert_eq!(executor.polled(Poll::<u32>::Pending), BlockOn::Poll);
    // the wake-up was taken: the next wait sleeps
    assert_eq!(executor.idle::<u32>(), BlockOn::Sleep);
    executor.waker().wake();
    assert_eq!(executor.idle::<u32>(), BlockOn::Poll);
}

#[test]
fn test_and_clear_takes_the_flag_once() {
    let waker = EmbedWaker::new();
    assert!(!waker.test_and_clear());
    waker.wake();
    waker.wake();
    assert!(waker.test_and_clear());
    assert!(!waker.test_and_clear());
}

#[test]
fn block_on_driven_to_completion() {
    // a future that is pending twice, woken each time, then ready
    let executor = Executor::new();
    let mut polls = vec![Poll::Pending, Poll::Pending, Poll::Ready("done")].into_iter();
    let mut next = executor.start();
    let mut sleeps = 0;
    let out = loop {
        match next {
            BlockOn::Poll => {
                let out = polls.next().unwrap();
                if out == Poll::Pending {
                    // the wake-up arrives only after one sleep
                    next = executor.polled(out);
                    assert_eq!(next, BlockOn::Sleep);
                    executor.waker().wake();
                } else {
                    next = executor.polled(out);
                }
            }
            BlockOn::Sleep => {
                sleeps += 1;
                next = executor.idle();
            }
            BlockOn::Done(v) => break v,
        }
    };
    assert_eq!(out, "done");
    assert_eq!(sleeps, 2);
}
