use std::collections::VecDeque;

use hello_serial::utils::io::read_until::{read_until, until_advance, TooLong};
use hello_serial::utils::io::Read;
use hello_serial::poll::Poll;

/// What the scripted reader does on one call.
#[derive(Clone, Copy)]
enum Answer {
    Byte(u8),
    End,
    Busy,
    Fail(u8),
}

struct ScriptedReader {
    answers: VecDeque<Answer>,
}

impl ScriptedReader {
    fn new(answers: &[Answer]) -> Self {
        ScriptedReader { answers: answers.iter().copied().collect() }
    }

    fn bytes(text: &[u8]) -> Self {
        ScriptedReader { answers: text.iter().map(|b| Answer::Byte(*b)).collect() }
    }
}

impl Read for ScriptedReader {
    type Error = u8;

    fn poll_read(&mut self, buf: &mut [u8]) -> Poll<Result<usize, u8>> {
        if buf.is_empty() {
            return Poll::Ready(Ok(0));
        }
        match self.answers.pop_front().unwrap_or(Answer::End) {
            Answer::Byte(b) => {
                buf[0] = b;
                Poll::Ready(Ok(1))
            }
            Answer::End => Poll::Ready(Ok(0)),
            Answer::Busy => Poll::Pending,
            Answer::Fail(e) => Poll::Ready(Err(e)),
        }
    }
}

#[test]
fn read_until_stops_after_the_delimiter() {
    let mut reader = ScriptedReader::bytes(b"Bob\rAlice\r");
    let mut buf = [0u8; 8];
    let mut line = read_until(b'\r');
    assert_eq!(line.poll(&mut reader, &mut buf), Poll::Ready(Ok(Ok(4))));
    assert_eq!(&buf[..4], b"Bob\r");
    assert_eq!(&buf[4..], &[0, 0, 0, 0]);
    // the rest of the input is left for the next line
    let mut line = read_until(b'\r');
    assert_eq!(line.poll(&mut reader, &mut buf), Poll::Ready(Ok(Ok(6))));
    assert_eq!(&buf[..6], b"Alice\r");
}

#[test]
fn read_until_resumes_after_a_pending_read() {
    let mut reader = ScriptedReader::new(&[Answer::Byte(b'h'), Answer::Busy, Answer::Byte(b'i'), Answer::Byte(b'\r')]);
    let mut buf = [0u8; 4];
    let mut line = read_until(b'\r');
    assert_eq!(line.poll(&mut reader, &mut buf), Poll::Pending);
    assert_eq!(line.poll(&mut reader, &mut buf), Poll::Ready(Ok(Ok(3))));
    assert_eq!(&buf[..3], b"hi\r");
}

#[test]
fn read_until_reports_a_line_too_long() {
    let mut reader = ScriptedReader::bytes(b"abcdef\r");
    let mut buf = [0u8; 4];
    let mut line = read_until(b'\r');
    assert_eq!(line.poll(&mut reader, &mut buf), Poll::Ready(Ok(Err(TooLong))));
    assert_eq!(&buf, b"abcd");
}

#[test]
fn read_until_that_fills_the_buffer_with_the_delimiter_is_a_line() {
    let mut reader = ScriptedReader::bytes(b"abc\r");
    let mut buf = [0u8; 4];
    let mut line = read_until(b'\r');
    assert_eq!(line.poll(&mut reader, &mut buf), Poll::Ready(Ok(Ok(4))));
}

#[test]
fn read_until_at_end_of_input() {
    let mut reader = ScriptedReader::new(&[]);
    let mut buf = [0u8; 4];
    assert_eq!(read_until(b'\r').poll(&mut reader, &mut buf), Poll::Ready(Ok(Ok(0))));
    let mut reader = ScriptedReader::new(&[Answer::Byte(b'x'), Answer::End]);
    assert_eq!(read_until(b'\r').poll(&mut reader, &mut buf), Poll::Ready(Ok(Ok(1))));
}

#[test]
fn read_until_passes_the_reader_error_on() {
    let mut reader = ScriptedReader::new(&[Answer::Byte(b'x'), Answer::Fail(5)]);
    let mut buf = [0u8; 4];
    assert_eq!(read_until(b'\r').poll(&mut reader, &mut buf), Poll::Ready(Err(5)));
}

#[test]
fn read_until_into_an_empty_buffer_is_too_long() {
    let mut reader = ScriptedReader::bytes(b"a\r");
    let mut buf: [u8; 0] = [];
    assert_eq!(read_until(b'\r').poll(&mut reader, &mut buf), Poll::Ready(Ok(Err(TooLong))));
    // nothing was read
    assert_eq!(reader.answers.len(), 2);
}

#[test]
fn until_advance_decides_each_step() {
    assert_eq!(until_advance(2, 8, b'\r', 0, 0), (2, Some(Ok(2))));
    assert_eq!(until_advance(2, 8, b'\r', 1, b'\r'), (3, Some(Ok(3))));
    assert_eq!(until_advance(2, 8, b'\r', 1, b'a'), (3, None));
    assert_eq!(until_advance(7, 8, b'\r', 1, b'a'), (8, Some(Err(TooLong))));
}
