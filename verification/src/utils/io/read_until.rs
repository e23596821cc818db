use vstd::prelude::*;

use crate::utils::io::read::{Read, ReadCall};
use crate::poll::Poll;

verus! {

/// The state of a `read_until` that is polled to completion: it reads bytes
/// one at a time into a line buffer until it has stored the delimiter.
pub struct ReadUntil {
    delim: u8,
    position: usize,
}

/// The line buffer held no delimiter when it was full.
#[derive(Debug, Clone, Copy, PartialEq, Eq)]
pub struct TooLong;

/// One step of `read_until` with `position` bytes stored in a line buffer of
/// `len` bytes: the reader handed over `count` bytes, the first being `byte`.
/// Gives the new position and, unless the loop goes on, the line's outcome.
/// No byte means the input ended: the line is what was stored. A byte is
/// stored; the line ends when it is the delimiter, and is too long when it
/// filled the buffer otherwise.
pub open spec fn until_step(position: nat, len: nat, delim: u8, count: nat, byte: u8) -> (
    nat,
    Option<Result<usize, TooLong>>,
) {
    if count == 0 {
        (position, Some(Ok(position as usize)))
    } else if byte == delim {
        (position + 1, Some(Ok((position + 1) as usize)))
    } else if position + 1 >= len {
        (position + 1, Some(Err(TooLong)))
    } else {
        (position + 1, None)
    }
}

/// Decides one step of `read_until` after the reader handed over `count`
/// bytes, the first being `byte`.
pub fn until_advance(position: usize, len: usize, delim: u8, count: usize, byte: u8) -> (r: (
    usize,
    Option<Result<usize, TooLong>>,
))
    requires
        position < len,
    ensures
        (r.0 as nat, r.1) == until_step(position as nat, len as nat, delim, count as nat, byte),
{
    if count == 0 {
        (position, Some(Ok(position)))
    } else if byte == delim {
        (position + 1, Some(Ok(position + 1)))
    } else if position + 1 >= len {
        (position + 1, Some(Err(TooLong)))
    } else {
        (position + 1, None)
    }
}

/// What `read_until` does with one answer of the reader, with `position`
/// bytes of `line` stored: `Pending` and errors end the poll; an answer of
/// `count` bytes, the first being `byte`, stores that byte (when there is
/// one) and takes the step of [`until_step`]. Gives the new position, the new
/// line buffer and, unless the loop goes on, the poll's result.
pub open spec fn until_answer<E>(
    position: nat,
    len: nat,
    delim: u8,
    line: Seq<u8>,
    answer: Poll<Result<(usize, u8), E>>,
) -> (nat, Seq<u8>, Option<Poll<Result<Result<usize, TooLong>, E>>>) {
    match answer {
        Poll::Pending => (position, line, Some(Poll::Pending)),
        Poll::Ready(Err(e)) => (position, line, Some(Poll::Ready(Err(e)))),
        Poll::Ready(Ok((count, byte))) => {
            let stored = if count > 0 {
                line.update(position as int, byte)
            } else {
                line
            };
            let (p, done) = until_step(position, len, delim, count as nat, byte);
            (
                p,
                stored,
                match done {
                    Some(outcome) => Some(Poll::Ready(Ok(outcome))),
                    None => None,
                },
            )
        },
    }
}

/// The polls of `read_until` from `position` while the reader answers
/// `answers` in turn (each a count and the first byte handed over), for as
/// long as the loop asks; a full buffer is too long before any read. Gives the final position, line buffer and, when
/// the answers sufficed, the result.
pub open spec fn until_run<E>(
    position: nat,
    len: nat,
    delim: u8,
    line: Seq<u8>,
    answers: Seq<Poll<Result<(usize, u8), E>>>,
) -> (nat, Seq<u8>, Option<Poll<Result<Result<usize, TooLong>, E>>>)
    decreases answers.len(),
{
    if position >= len {
        (position, line, Some(Poll::Ready(Ok(Err(TooLong)))))
    } else if answers.len() == 0 {
        (position, line, None)
    } else {
        let (p, l, r) = until_answer(position, len, delim, line, answers[0]);
        if r is Some {
            (p, l, r)
        } else {
            until_run(p, len, delim, l, answers.drop_first())
        }
    }
}

/// The answer of a reader that returned `got` for a one-byte buffer that then
/// held `byte`; the byte counts only when the reader handed one out.
pub open spec fn answer_of<E>(got: Poll<Result<usize, E>>, byte: u8) -> Poll<Result<(usize, u8), E>> {
    match got {
        Poll::Pending => Poll::Pending,
        Poll::Ready(Err(e)) => Poll::Ready(Err(e)),
        Poll::Ready(Ok(count)) => Poll::Ready(
            Ok(
                (
                    count,
                    if count > 0 {
                        byte
                    } else {
                        0
                    },
                ),
            ),
        ),
    }
}

/// The answer of the call `call` of `poll_read` on a one-byte buffer: its
/// count and the byte it handed out (0 when it handed out none).
pub open spec fn call_answer<E>(call: ReadCall<E>) -> Poll<Result<(usize, u8), E>> {
    answer_of(
        call.answer,
        if call.handed.len() > 0 {
            call.handed[0]
        } else {
            0
        },
    )
}

/// The answers of the calls `calls`.
pub open spec fn until_answers<E>(calls: Seq<ReadCall<E>>) -> Seq<Poll<Result<(usize, u8), E>>> {
    calls.map_values(|c: ReadCall<E>| call_answer(c))
}

/// `calls` are the calls that `read_until` makes of the reader from
/// `position` with `line` the line buffer: each is made while the buffer has
/// room and is handed a buffer of one byte, the line moving on as
/// [`until_answer`] says; no call follows one whose answer ends the poll.
pub open spec fn reads_one_by_one<E>(
    position: nat,
    len: nat,
    delim: u8,
    line: Seq<u8>,
    calls: Seq<ReadCall<E>>,
) -> bool
    decreases calls.len(),
{
    if calls.len() == 0 {
        true
    } else {
        &&& position < len
        &&& calls[0].room == 1
        &&& {
            let (p, l, r) = until_answer(position, len, delim, line, call_answer(calls[0]));
            if r is Some {
                calls.len() == 1
            } else {
                reads_one_by_one(p, len, delim, l, calls.drop_first())
            }
        }
    }
}

/// The reader's answers when it hands over the bytes `bs` one at a time.
pub open spec fn bytes_one_by_one<E>(bs: Seq<u8>) -> Seq<Poll<Result<(usize, u8), E>>> {
    bs.map_values(|b: u8| Poll::Ready(Ok((1usize, b))))
}

/// No byte before `n` in `line` is the delimiter.
pub open spec fn no_delim_before(line: Seq<u8>, delim: u8, n: nat) -> bool {
    forall|i: int| 0 <= i < n ==> line[i] != delim
}

/// Starts reading a line that ends with `delim`.
pub fn read_until(delim: u8) -> (r: ReadUntil)
    ensures
        r.delim() == delim,
        r.position() == 0,
{
    ReadUntil { delim, position: 0 }
}

/// One more call, handed a one-byte buffer, after calls that left the poll
/// going on.
proof fn lemma_reads_push<E>(
    position: nat,
    len: nat,
    delim: u8,
    line: Seq<u8>,
    calls: Seq<ReadCall<E>>,
    call: ReadCall<E>,
)
    requires
        reads_one_by_one(position, len, delim, line, calls),
        until_run(position, len, delim, line, until_answers(calls)).2 is None,
        call.room == 1,
    ensures
        reads_one_by_one(position, len, delim, line, calls.push(call)),
    decreases calls.len(),
{
    let pushed = calls.push(call);
    if calls.len() == 0 {
        assert(pushed[0] == call);
        assert(pushed.drop_first() =~= Seq::<ReadCall<E>>::empty());
        let (p, l, r) = until_answer(position, len, delim, line, call_answer(call));
        assert(reads_one_by_one(p, len, delim, l, pushed.drop_first()));
    } else {
        let answers = until_answers(calls);
        assert(answers[0] == call_answer(calls[0]));
        assert(answers.drop_first() =~= until_answers(calls.drop_first()));
        let (p, l, r) = until_answer(position, len, delim, line, call_answer(calls[0]));
        assert(pushed[0] == calls[0]);
        assert(pushed.drop_first() =~= calls.drop_first().push(call));
        lemma_reads_push(p, len, delim, l, calls.drop_first(), call);
    }
}

/// One more answer after a run of `read_until` that is still going on.
proof fn lemma_until_push<E>(
    start: nat,
    len: nat,
    delim: u8,
    line: Seq<u8>,
    answers: Seq<Poll<Result<(usize, u8), E>>>,
    answer: Poll<Result<(usize, u8), E>>,
)
    requires
        until_run(start, len, delim, line, answers).2 is None,
    ensures
        ({
            let (p, l, _) = until_run(start, len, delim, line, answers);
            until_run(start, len, delim, line, answers.push(answer)) == until_answer(
                p,
                len,
                delim,
                l,
                answer,
            )
        }),
    decreases answers.len(),
{
    if answers.len() == 0 {
        assert(answers.push(answer)[0] == answer);
        assert(answers.push(answer).drop_first() =~= Seq::<Poll<Result<(usize, u8), E>>>::empty());
        let (p, l, r) = until_answer(start, len, delim, line, answer);
        if r is None {
            assert(until_run(p, len, delim, l, Seq::<Poll<Result<(usize, u8), E>>>::empty()) == (
                p,
                l,
                r,
            ));
        }
    } else {
        let (p, l, r) = until_answer(start, len, delim, line, answers[0]);
        assert(answers.push(answer)[0] == answers[0]);
        assert(answers.push(answer).drop_first() =~= answers.drop_first().push(answer));
        lemma_until_push(p, len, delim, l, answers.drop_first(), answer);
    }
}

impl ReadUntil {
    /// The delimiter that ends a line.
    pub closed spec fn delim(&self) -> u8 {
        self.delim
    }

    /// How many bytes of the line are stored.
    pub closed spec fn position(&self) -> nat {
        self.position as nat
    }

    /// The line so far in `buf` is in order: it fits and holds no delimiter.
    pub open spec fn fits(&self, buf: Seq<u8>) -> bool {
        &&& self.position() <= buf.len()
        &&& no_delim_before(buf, self.delim(), self.position())
    }

    /// Polls the read: takes bytes one at a time from `reader` and stores them
    /// in `buf` after the line so far. Ready with `Ok(Ok(n))` once the `n`th
    /// stored byte is the delimiter or the input ended after `n` bytes;
    /// `Ok(Err(TooLong))` when `buf` filled up without a delimiter; `Err` with
    /// the reader's error; `Pending` when the reader has nothing yet, to be
    /// polled again with the same reader and buffer. Bytes before the line's
    /// position are left alone, and so are those after the bytes stored.
    pub fn poll<R: Read>(&mut self, reader: &mut R, buf: &mut [u8]) -> (r: Poll<
        Result<Result<usize, TooLong>, R::Error>,
    >)
        requires
            old(self).fits(old(buf)@),
        ensures
            final(self).delim() == old(self).delim(),
            final(buf)@.len() == old(buf)@.len(),
            old(self).position() <= final(self).position() <= final(buf)@.len(),
            final(buf)@.subrange(0, old(self).position() as int) == old(buf)@.subrange(
                0,
                old(self).position() as int,
            ),
            final(buf)@.subrange(final(self).position() as int, final(buf)@.len() as int)
                == old(buf)@.subrange(final(self).position() as int, old(buf)@.len() as int),
            match r {
                Poll::Ready(Ok(Ok(n))) => {
                    &&& n == final(self).position()
                    &&& n > 0 ==> no_delim_before(final(buf)@, final(self).delim(), (n - 1) as nat)
                },
                Poll::Ready(Ok(Err(TooLong))) => {
                    &&& final(self).position() == final(buf)@.len()
                    &&& no_delim_before(final(buf)@, final(self).delim(), final(buf)@.len())
                },
                _ => final(self).fits(final(buf)@),
            },
            exists|answers: Seq<Poll<Result<(usize, u8), R::Error>>>|
                until_run(
                    old(self).position(),
                    old(buf)@.len(),
                    old(self).delim(),
                    old(buf)@,
                    answers,
                ) == (final(self).position(), final(buf)@, Some(r)),
            R::obeys_log() ==> ({
                let before = old(reader).calls();
                let after = final(reader).calls();
                let made = after.subrange(before.len() as int, after.len() as int);
                &&& before.len() <= after.len()
                &&& after.subrange(0, before.len() as int) == before
                &&& reads_one_by_one(
                    old(self).position(),
                    old(buf)@.len(),
                    old(self).delim(),
                    old(buf)@,
                    made,
                )
                &&& until_run(
                    old(self).position(),
                    old(buf)@.len(),
                    old(self).delim(),
                    old(buf)@,
                    until_answers(made),
                ) == (final(self).position(), final(buf)@, Some(r))
            }),
            R::obeys_log() ==> match r {
                Poll::Ready(Err(_)) => exists|extra: Seq<u8>|
                    extra.len() <= 1 && final(reader).received() == old(reader).received()
                        + final(buf)@.subrange(
                        old(self).position() as int,
                        final(self).position() as int,
                    ) + extra,
                _ => final(reader).received() == old(reader).received() + final(buf)@.subrange(
                    old(self).position() as int,
                    final(self).position() as int,
                ),
            },
    {
        let len = buf.len();
        let ghost start = self.position();
        let ghost mut answers: Seq<Poll<Result<(usize, u8), R::Error>>> = Seq::empty();
        let ghost base = old(reader).calls().len();
        loop
            invariant
                start == old(self).position(),
                answers.len() == 0 || self.position < len,
                until_run(start, len as nat, self.delim(), old(buf)@, answers) == (
                    self.position(),
                    buf@,
                    if self.position >= len {
                        Some(Poll::<Result<Result<usize, TooLong>, R::Error>>::Ready(Ok(Err(TooLong))))
                    } else {
                        None
                    },
                ),
                base == old(reader).calls().len(),
                R::obeys_log() ==> reader.received() == old(reader).received() + buf@.subrange(
                    start as int,
                    self.position as int,
                ),
                R::obeys_log() ==> ({
                    let made = reader.calls().subrange(base as int, reader.calls().len() as int);
                    &&& base <= reader.calls().len()
                    &&& reader.calls().subrange(0, base as int) == old(reader).calls()
                    &&& reads_one_by_one(start, len as nat, self.delim(), old(buf)@, made)
                    &&& until_answers(made) == answers
                }),
                self.delim() == old(self).delim(),
                buf@.len() == len,
                len == old(buf)@.len(),
                old(self).position() <= self.position(),
                self.fits(buf@),
                buf@.subrange(0, old(self).position() as int) == old(buf)@.subrange(
                    0,
                    old(self).position() as int,
                ),
                buf@.subrange(self.position() as int, len as int) == old(buf)@.subrange(
                    self.position() as int,
                    len as int,
                ),
            decreases len - self.position,
        {
            if self.position >= len {
                return Poll::Ready(Ok(Err(TooLong)));
            }
            let mut one: [u8; 1] = [0u8; 1];
            let ghost received_before = reader.received();
            let ghost calls_before = reader.calls();
            let got = reader.poll_read(&mut one);
            let ghost answer = answer_of(got, one@[0]);
            proof {
                if R::obeys_log() {
                    let call = reader.calls().last();
                    let made = calls_before.subrange(base as int, calls_before.len() as int);
                    lemma_reads_push(start, len as nat, self.delim(), old(buf)@, made, call);
                    assert(reader.calls().subrange(base as int, reader.calls().len() as int)
                        =~= made.push(call));
                    assert(reader.calls().subrange(0, base as int) =~= calls_before.subrange(
                        0,
                        base as int,
                    ));
                    if call.handed.len() > 0 {
                        assert(call.handed[0] == one@[0]);
                    }
                    assert(call_answer(call) == answer);
                    assert(until_answers(made.push(call)) =~= until_answers(made).push(answer));
                }
                lemma_until_push(start, len as nat, self.delim(), old(buf)@, answers, answer);
                answers = answers.push(answer);
            }
            match got {
                Poll::Pending => {
                    return Poll::Pending;
                },
                Poll::Ready(Err(e)) => {
                    proof {
                        if R::obeys_log() {
                            let extra = reader.calls().last().handed;
                            assert(extra.len() <= 1);
                            assert(reader.received() == old(reader).received()
                                + buf@.subrange(start as int, self.position as int) + extra);
                        }
                    }
                    return Poll::Ready(Err(e));
                },
                Poll::Ready(Ok(count)) => {
                    let byte = one[0];
                    let ghost before = buf@;
                    let ghost pos = self.position as int;
                    let (p, done) = until_advance(self.position, len, self.delim, count, byte);
                    if count > 0 {
                        buf[self.position] = byte;
                        proof {
                            if R::obeys_log() {
                                let handed = reader.calls().last().handed;
                                assert(handed =~= seq![byte]);
                            }
                            assert(buf@.subrange(start as int, pos + 1) =~= before.subrange(
                                start as int,
                                pos,
                            ).push(byte));
                            assert(buf@.subrange(0, old(self).position() as int) =~= before.subrange(
                                0,
                                old(self).position() as int,
                            ));
                            assert(buf@.subrange(p as int, len as int) =~= before.subrange(
                                p as int,
                                len as int,
                            ));
                            assert forall|i: int| 0 <= i < len - p implies before.subrange(
                                p as int,
                                len as int,
                            )[i] == old(buf)@.subrange(p as int, len as int)[i] by {
                                assert(before.subrange(pos, len as int)[i + 1] == old(
                                    buf,
                                )@.subrange(pos, len as int)[i + 1]);
                            }
                            assert(before.subrange(p as int, len as int) =~= old(buf)@.subrange(
                                p as int,
                                len as int,
                            ));
                        }
                    }
                    self.position = p;
                    match done {
                        Some(outcome) => {
                            return Poll::Ready(Ok(outcome));
                        },
                        None => {},
                    }
                },
            }
        }
    }
}

/// `read_until` from `position` while the reader hands over `bs` one byte at
/// a time, `bs` ending the line: with the delimiter, or by filling the buffer.
proof fn lemma_until_run_bytes<E>(position: nat, len: nat, delim: u8, line: Seq<u8>, bs: Seq<u8>)
    requires
        line.len() == len,
        len <= usize::MAX,
        bs.len() > 0,
        position + bs.len() <= len,
        forall|i: int| 0 <= i < bs.len() - 1 ==> bs[i] != delim,
        bs.last() == delim || position + bs.len() == len,
    ensures
        until_run(position, len, delim, line, bytes_one_by_one::<E>(bs)) == (
            position + bs.len(),
            line.subrange(0, position as int) + bs + line.subrange((position + bs.len()) as int, len as int),
            Some(
                Poll::<Result<Result<usize, TooLong>, E>>::Ready(
                    Ok(
                        if bs.last() == delim {
                            Ok((position + bs.len()) as usize)
                        } else {
                            Err(TooLong)
                        },
                    ),
                ),
            ),
        ),
    decreases bs.len(),
{
    let answers = bytes_one_by_one::<E>(bs);
    let b = bs[0];
    assert(answers[0] == Poll::<Result<(usize, u8), E>>::Ready(Ok((1usize, b))));
    let stored = line.update(position as int, b);
    if bs.len() == 1 {
        assert(line.subrange(0, position as int) + bs + line.subrange(position + 1 as int, len as int)
            =~= stored);
    } else {
        let rest = bs.drop_first();
        assert(b != delim);
        assert(answers.drop_first() =~= bytes_one_by_one::<E>(rest));
        assert forall|i: int| 0 <= i < rest.len() - 1 implies rest[i] != delim by {
            assert(rest[i] == bs[i + 1]);
        }
        lemma_until_run_bytes::<E>(position + 1, len, delim, stored, rest);
        assert(stored.subrange(0, position + 1 as int) + rest + stored.subrange(
            (position + 1 + rest.len()) as int,
            len as int,
        ) =~= line.subrange(0, position as int) + bs + line.subrange(
            (position + bs.len()) as int,
            len as int,
        ));
    }
}

/// Law: a line is exactly the bytes the reader handed over. When the reader
/// hands over the bytes `bs`, one at a time, that end with the delimiter and
/// hold no other, and they fit after the `position` bytes already stored,
/// `read_until` stores them there, leaves the rest of the buffer alone, and
/// reports a line of `position + bs.len()` bytes. For a reader that keeps a
/// log, `poll` ensures that its result is `until_run` over the answers of the
/// calls it made, so the law holds of real polls.
pub proof fn lemma_line_is_bytes_read<E>(position: nat, delim: u8, line: Seq<u8>, bs: Seq<u8>)
    requires
        line.len() <= usize::MAX,
        bs.len() > 0,
        position + bs.len() <= line.len(),
        bs.last() == delim,
        forall|i: int| 0 <= i < bs.len() - 1 ==> bs[i] != delim,
    ensures
        until_run(position, line.len(), delim, line, bytes_one_by_one::<E>(bs)) == (
            position + bs.len(),
            line.subrange(0, position as int) + bs + line.subrange(
                (position + bs.len()) as int,
                line.len() as int,
            ),
            Some(
                Poll::<Result<Result<usize, TooLong>, E>>::Ready(
                    Ok(Ok((position + bs.len()) as usize)),
                ),
            ),
        ),
{
    lemma_until_run_bytes::<E>(position, line.len(), delim, line, bs);
}

/// Law: a line that does not fit is refused. When the reader hands over the
/// bytes `bs`, one at a time, none of them the delimiter, and they fill the
/// buffer after the `position` bytes already stored, `read_until` stores them
/// and reports `TooLong`.
pub proof fn lemma_long_line_is_too_long<E>(position: nat, delim: u8, line: Seq<u8>, bs: Seq<u8>)
    requires
        line.len() <= usize::MAX,
        bs.len() > 0,
        position + bs.len() == line.len(),
        forall|i: int| 0 <= i < bs.len() ==> bs[i] != delim,
    ensures
        until_run(position, line.len(), delim, line, bytes_one_by_one::<E>(bs)) == (
            line.len(),
            line.subrange(0, position as int) + bs,
            Some(Poll::<Result<Result<usize, TooLong>, E>>::Ready(Ok(Err(TooLong)))),
        ),
{
    assert(bs.last() != delim);
    lemma_until_run_bytes::<E>(position, line.len(), delim, line, bs);
    assert(line.subrange(0, position as int) + bs + line.subrange(line.len() as int, line.len() as int)
        =~= line.subrange(0, position as int) + bs);
}

/// `read_until` from `position` while the reader hands over `bs`, none of
/// them the delimiter and with room to spare, and then answers `last`: busy or
/// failed.
proof fn lemma_until_run_bytes_then<E>(
    position: nat,
    len: nat,
    delim: u8,
    line: Seq<u8>,
    bs: Seq<u8>,
    last: Poll<Result<(usize, u8), E>>,
)
    requires
        line.len() == len,
        len <= usize::MAX,
        position + bs.len() < len,
        forall|i: int| 0 <= i < bs.len() ==> bs[i] != delim,
        last is Pending || (last is Ready && last->Ready_0 is Err),
    ensures
        ({
            let stored = line.subrange(0, position as int) + bs + line.subrange(
                (position + bs.len()) as int,
                len as int,
            );
            let (n, l, r) = until_run(position, len, delim, line, bytes_one_by_one::<E>(bs).push(last));
            &&& n == position + bs.len()
            &&& l == stored
            &&& last is Pending ==> r == Some(Poll::<Result<Result<usize, TooLong>, E>>::Pending)
            &&& last matches Poll::Ready(Err(e)) ==> r == Some(
                Poll::<Result<Result<usize, TooLong>, E>>::Ready(Err(e)),
            )
        }),
    decreases bs.len(),
{
    let answers = bytes_one_by_one::<E>(bs).push(last);
    if bs.len() == 0 {
        assert(answers[0] == last);
        assert(line.subrange(0, position as int) + bs + line.subrange(position as int, len as int)
            =~= line);
    } else {
        let b = bs[0];
        assert(answers[0] == Poll::<Result<(usize, u8), E>>::Ready(Ok((1usize, b))));
        let stored = line.update(position as int, b);
        let rest = bs.drop_first();
        assert(answers.drop_first() =~= bytes_one_by_one::<E>(rest).push(last));
        assert forall|i: int| 0 <= i < rest.len() implies rest[i] != delim by {
            assert(rest[i] == bs[i + 1]);
        }
        lemma_until_run_bytes_then::<E>(position + 1, len, delim, stored, rest, last);
        assert(stored.subrange(0, position + 1 as int) + rest + stored.subrange(
            (position + 1 + rest.len()) as int,
            len as int,
        ) =~= line.subrange(0, position as int) + bs + line.subrange(
            (position + bs.len()) as int,
            len as int,
        ));
    }
}

/// Law: a busy reader leaves a line unfinished, and a failing one fails it.
/// When the reader hands over the bytes `bs` -- none of them the delimiter,
/// possibly none at all -- and then is busy, `read_until` is `Pending` with
/// those bytes stored after the line so far, however many there are; when it
/// then fails with `e`, `read_until` fails with `e`. A busy answer at any
/// position leaves the line where it stands.
pub proof fn lemma_busy_reader_leaves_line_pending<E>(
    position: nat,
    delim: u8,
    line: Seq<u8>,
    bs: Seq<u8>,
    e: E,
)
    requires
        line.len() <= usize::MAX,
        position + bs.len() < line.len(),
        forall|i: int| 0 <= i < bs.len() ==> bs[i] != delim,
    ensures
        until_answer(position, line.len(), delim, line, Poll::<Result<(usize, u8), E>>::Pending) == (
            position,
            line,
            Some(Poll::<Result<Result<usize, TooLong>, E>>::Pending),
        ),
        until_run(
            position,
            line.len(),
            delim,
            line,
            bytes_one_by_one::<E>(bs).push(Poll::Pending),
        ) == (
            position + bs.len(),
            line.subrange(0, position as int) + bs + line.subrange(
                (position + bs.len()) as int,
                line.len() as int,
            ),
            Some(Poll::<Result<Result<usize, TooLong>, E>>::Pending),
        ),
        until_run(
            position,
            line.len(),
            delim,
            line,
            bytes_one_by_one::<E>(bs).push(Poll::Ready(Err(e))),
        ) == (
            position + bs.len(),
            line.subrange(0, position as int) + bs + line.subrange(
                (position + bs.len()) as int,
                line.len() as int,
            ),
            Some(Poll::<Result<Result<usize, TooLong>, E>>::Ready(Err(e))),
        ),
{
    lemma_until_run_bytes_then::<E>(position, line.len(), delim, line, bs, Poll::Pending);
    lemma_until_run_bytes_then::<E>(position, line.len(), delim, line, bs, Poll::Ready(Err(e)));
}

/// Whether the reader's answer `a` reports the end of the input.
pub open spec fn ends_input<E>(a: Poll<Result<(usize, u8), E>>) -> bool {
    a is Ready && a->Ready_0 is Ok && a->Ready_0->Ok_0.0 == 0
}

/// Law: a line ends only at the delimiter or at the end of the input, and how
/// a poll ends is the reader's doing. Whatever the reader answers, from any
/// position: a line of `m` bytes is the position reached, and either its last
/// byte is the delimiter or the reader reported the end of the input; a
/// pending poll had a busy reader; an error `e` came from the reader; and a
/// line too long filled the buffer.
pub proof fn lemma_line_ends_at_delimiter_or_end<E>(
    position: nat,
    len: nat,
    delim: u8,
    line: Seq<u8>,
    answers: Seq<Poll<Result<(usize, u8), E>>>,
)
    requires
        line.len() == len,
        len <= usize::MAX,
        position <= len,
    ensures
        ({
            let (n, l, r) = until_run(position, len, delim, line, answers);
            &&& l.len() == len
            &&& (r matches Some(Poll::Ready(Ok(Ok(m)))) ==> {
                &&& m == n
                &&& (m > 0 && l[m - 1] == delim) || exists|i: int|
                    0 <= i < answers.len() && ends_input(#[trigger] answers[i])
            })
            &&& (r == Some(Poll::<Result<Result<usize, TooLong>, E>>::Pending) ==> exists|i: int|
                0 <= i < answers.len() && answers[i] == Poll::<Result<(usize, u8), E>>::Pending)
            &&& (r matches Some(Poll::Ready(Err(e))) ==> exists|i: int|
                0 <= i < answers.len() && answers[i] == Poll::<Result<(usize, u8), E>>::Ready(Err(e)))
            &&& (r == Some(Poll::<Result<Result<usize, TooLong>, E>>::Ready(Ok(Err(TooLong)))) ==> n
                == len)
        }),
    decreases answers.len(),
{
    if position < len && answers.len() > 0 {
        let (p, l, r) = until_answer(position, len, delim, line, answers[0]);
        if r is None {
            lemma_line_ends_at_delimiter_or_end(p, len, delim, l, answers.drop_first());
            let rest = answers.drop_first();
            let (n2, l2, r2) = until_run(p, len, delim, l, rest);
            if let Some(Poll::Ready(Ok(Ok(m)))) = r2 {
                if !(m > 0 && l2[m - 1] == delim) {
                    let j = choose|j: int| 0 <= j < rest.len() && ends_input(#[trigger] rest[j]);
                    assert(answers[j + 1] == rest[j]);
                }
            }
            if r2 == Some(Poll::<Result<Result<usize, TooLong>, E>>::Pending) {
                let j = choose|j: int| 0 <= j < rest.len() && rest[j] == Poll::<Result<(usize, u8), E>>::Pending;
                assert(answers[j + 1] == rest[j]);
            }
            if let Some(Poll::Ready(Err(e))) = r2 {
                let j = choose|j: int|
                    0 <= j < rest.len() && rest[j] == Poll::<Result<(usize, u8), E>>::Ready(Err(e));
                assert(answers[j + 1] == rest[j]);
            }
        } else {
            if let Some(Poll::Ready(Ok(Ok(m)))) = r {
                if !(m > 0 && l[m - 1] == delim) {
                    assert(ends_input(answers[0]));
                }
            }
        }
    }
}

} // verus!
