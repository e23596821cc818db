use std::collections::VecDeque;

use hello_serial::utils::io::write_all::{advance, write_all, Error};
use hello_serial::utils::io::Write;
use hello_serial::poll::Poll;

/// What the scripted writer does on one call.
#[derive(Clone, Copy)]
enum Answer {
    Take(usize),
    Busy,
    Fail(u8),
}

struct ScriptedWriter {
    answers: VecDeque<Answer>,
    written: Vec<u8>,
    offered: Vec<usize>,
    chunks: Vec<Vec<u8>>,
}

impl ScriptedWriter {
    fn new(answers: &[Answer]) -> Self {
        ScriptedWriter { answers: answers.iter().copied().collect(), written: Vec::new(), offered: Vec::new(), chunks: Vec::new() }
    }
}

impl Write for ScriptedWriter {
    type Error = u8;

    fn poll_write(&mut self, buf: &[u8]) -> Poll<Result<usize, u8>> {
        self.offered.push(buf.len());
        self.chunks.push(buf.to_vec());
        match self.answers.pop_front().expect("no more answers") {
            Answer::Take(k) => {
                let n = k.min(buf.len());
                self.written.extend_from_slice(&buf[..n]);
                Poll::Ready(Ok(n))
            }
            Answer::Busy => Poll::Pending,
            Answer::Fail(e) => Poll::Ready(Err(e)),
        }
    }

    fn poll_flush(&mut self) -> Poll<Result<(), u8>> {
        Poll::Ready(Ok(()))
    }

    fn poll_close(&mut self) -> Poll<Result<(), u8>> {
        Poll::Ready(Ok(()))
    }
}

#[test]
fn write_all_writes_every_byte_in_chunks() {
    let mut writer = ScriptedWriter::new(&[Answer::Take(2), Answer::Take(3), Answer::Take(10)]);
    let mut w = write_all(b"abcdefg");
    assert_eq!(w.poll(&mut writer), Poll::Ready(Ok(())));
    assert_eq!(writer.written, b"abcdefg".to_vec());
    // each chunk starts where the last accepted write ended
    assert_eq!(writer.offered, vec![7, 5, 2]);
}

#[test]
fn write_all_resumes_after_a_busy_writer() {
    let mut writer = ScriptedWriter::new(&[Answer::Take(1), Answer::Busy, Answer::Take(5)]);
    let mut w = write_all(b"Hi ");
    assert_eq!(w.poll(&mut writer), Poll::Pending);
    assert_eq!(writer.written, b"H".to_vec());
    assert_eq!(w.poll(&mut writer), Poll::Ready(Ok(())));
    assert_eq!(writer.written, b"Hi ".to_vec());
    assert_eq!(writer.offered, vec![3, 2, 2]);
}

#[test]
fn write_all_fails_when_the_writer_takes_nothing() {
    let mut writer = ScriptedWriter::new(&[Answer::Take(1), Answer::Take(0)]);
    let mut w = write_all(b"xyz");
    assert_eq!(w.poll(&mut writer), Poll::Ready(Err(Error::WriteZero)));
    assert_eq!(writer.written, b"x".to_vec());
}

#[test]
fn write_all_passes_the_writer_error_on() {
    let mut writer = ScriptedWriter::new(&[Answer::Fail(7)]);
    let mut w = write_all(b"xyz");
    assert_eq!(w.poll(&mut writer), Poll::Ready(Err(Error::Other(7))));
}

#[test]
fn write_all_of_nothing_is_ready_at_once() {
    let mut writer = ScriptedWriter::new(&[]);
    let mut w = write_all(b"");
    assert_eq!(w.poll(&mut writer), Poll::Ready(Ok(())));
    assert!(writer.offered.is_empty());
}

#[test]
fn advance_decides_each_step() {
    assert_eq!(advance::<u8>(2, 5, Poll::Pending), (2, Some(Poll::Pending)));
    assert_eq!(advance::<u8>(2, 5, Poll::Ready(Err(4))), (2, Some(Poll::Ready(Err(Error::Other(4))))));
    assert_eq!(advance::<u8>(2, 5, Poll::Ready(Ok(0))), (2, Some(Poll::Ready(Err(Error::WriteZero)))));
    assert_eq!(advance::<u8>(2, 5, Poll::Ready(Ok(2))), (4, None));
    assert_eq!(advance::<u8>(2, 5, Poll::Ready(Ok(3))), (5, Some(Poll::Ready(Ok(())))));
}

#[test]
fn writer_errors_convert_into_other() {
    let e: Error<u8> = Error::from(9u8);
    assert_eq!(e, Error::Other(9));
    let e: Error<&str> = "broken".into();
    assert_eq!(e, Error::Other("broken"));
}

#[test]
fn write_all_hands_the_writer_the_rest_of_the_buffer_each_time() {
    let mut writer = ScriptedWriter::new(&[Answer::Take(2), Answer::Take(2), Answer::Take(2)]);
    let mut w = write_all(b"hello");
    assert_eq!(w.poll(&mut writer), Poll::Ready(Ok(())));
    assert_eq!(writer.chunks, vec![b"hello".to_vec(), b"llo".to_vec(), b"o".to_vec()]);
    assert_eq!(writer.written, b"hello".to_vec());
}
