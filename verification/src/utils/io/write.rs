use vstd::prelude::*;

use crate::poll::Poll;

verus! {

/// One call of `poll_write`: the bytes it was handed, its answer, and the
/// bytes the sink took.
pub struct WriteCall<E> {
    pub offered: Seq<u8>,
    pub answer: Poll<Result<usize, E>>,
    pub taken: Seq<u8>,
}

/// What a sink may do in one call: take the first bytes of what it was
/// handed; `n` of them when it answers `Ready(Ok(n))`, none when it answers
/// `Pending`, and some, possibly none, when it fails.
pub open spec fn write_call_ok<E>(call: WriteCall<E>) -> bool {
    &&& call.taken.len() <= call.offered.len()
    &&& call.taken == call.offered.subrange(0, call.taken.len() as int)
    &&& match call.answer {
        Poll::Ready(Ok(n)) => call.taken.len() == n,
        Poll::Ready(Err(_)) => true,
        Poll::Pending => call.taken.len() == 0,
    }
}

/// A sink of bytes that is polled.
///
/// `poll_write` takes bytes from the front of `buf`. It returns `Ready(Ok(n))`
/// when it took the first `n <= buf.len()` of them; `Ready(Err(e))` when the
/// sink failed, after it took some first bytes of `buf`, possibly none; or
/// `Pending` when it could take none, in which case the implementation
/// arranges for the executor to be woken when it can. `poll_flush` and
/// `poll_close` complete what was written and close the sink.
///
/// An implementation that keeps a log of its calls says so with `obeys_log`,
/// and then describes each call of `poll_write` in `calls` and everything it
/// took in `sent`. The defaults keep no log and claim nothing of the calls:
/// what callers prove of the calls holds of the implementations that keep one.
pub trait Write {
    type Error;

    /// Whether this implementation keeps the log `calls` and `sent`.
    open spec fn obeys_log() -> bool {
        false
    }

    /// The calls of `poll_write` so far, in order.
    open spec fn calls(&self) -> Seq<WriteCall<Self::Error>> {
        Seq::empty()
    }

    /// Every byte the sink has taken, in order.
    open spec fn sent(&self) -> Seq<u8> {
        Seq::empty()
    }

    fn poll_write(&mut self, buf: &[u8]) -> (r: Poll<Result<usize, Self::Error>>)
        ensures
            r matches Poll::Ready(Ok(n)) ==> n <= buf@.len(),
            Self::obeys_log() ==> ({
                let call = final(self).calls().last();
                &&& final(self).calls() == old(self).calls().push(call)
                &&& call.offered == buf@
                &&& call.answer == r
                &&& write_call_ok(call)
                &&& final(self).sent() == old(self).sent() + call.taken
            }),
    ;

    fn poll_flush(&mut self) -> Poll<Result<(), Self::Error>>;

    fn poll_close(&mut self) -> Poll<Result<(), Self::Error>>;
}

/// What a serial transmitter's `poll_write` does next.
#[derive(Debug, PartialEq, Eq)]
pub enum WriteAction<E> {
    /// Hand this byte to the transmitter and feed back its answer.
    Put(u8),
    /// Return `Poll::Ready` with this result.
    Ready(Result<usize, E>),
    /// Enable the transmit interrupt and return `Poll::Pending`.
    Listen,
}

/// What a serial transmitter's `poll_flush` does with the transmitter's answer.
#[derive(Debug, PartialEq, Eq)]
pub enum FlushAction<E> {
    /// Return `Poll::Ready` with this result.
    Ready(Result<(), E>),
    /// Enable the transmit interrupt and return `Poll::Pending`.
    Listen,
}

/// The state of one `poll_write` on a serial transmitter that takes one byte
/// at a time: the first `pos` bytes of a buffer of `len` bytes were taken.
pub struct SerialWrite {
    pos: usize,
    len: usize,
}

/// What the transfer of `buf` does when `pos` of its bytes were taken and it
/// may go on: hand over the next byte, or return the count when all were taken.
pub open spec fn send_action<E>(pos: nat, buf: Seq<u8>) -> WriteAction<E> {
    if pos < buf.len() {
        WriteAction::Put(buf[pos as int])
    } else {
        WriteAction::Ready(Ok(pos as usize))
    }
}

/// One step of the transfer: the transmitter answered `got` to the byte at
/// `pos`. Gives the new count and what to do next. A taken byte moves on to
/// the next one; an error is passed on; a busy transmitter ends the transfer
/// with the count so far, or, when nothing was taken, with `Listen`.
pub open spec fn write_step<E>(pos: nat, buf: Seq<u8>, got: Poll<Result<(), E>>) -> (nat, WriteAction<E>) {
    match got {
        Poll::Ready(Ok(())) => (pos + 1, send_action(pos + 1, buf)),
        Poll::Ready(Err(e)) => (pos, WriteAction::Ready(Err(e))),
        Poll::Pending => (
            pos,
            if pos > 0 {
                WriteAction::Ready(Ok(pos as usize))
            } else {
                WriteAction::Listen
            },
        ),
    }
}

/// A whole transfer from `pos`, with `sent` the bytes the transmitter took so
/// far: the transmitter answers `events` in turn, for as long as the transfer
/// hands it bytes; a byte it takes is the one the `Put` handed it. Gives the final count, all bytes taken, and the final action.
pub open spec fn write_run<E>(pos: nat, buf: Seq<u8>, sent: Seq<u8>, events: Seq<Poll<Result<(), E>>>) -> (
    nat,
    Seq<u8>,
    WriteAction<E>,
)
    decreases events.len(),
{
    if pos >= buf.len() {
        (pos, sent, WriteAction::Ready(Ok(pos as usize)))
    } else if events.len() == 0 {
        (pos, sent, send_action(pos, buf))
    } else {
        let sent2 = if events[0] is Ready && events[0]->Ready_0 is Ok {
            sent.push(send_action::<E>(pos, buf)->Put_0)
        } else {
            sent
        };
        let (p, a) = write_step(pos, buf, events[0]);
        if a is Put {
            write_run(p, buf, sent2, events.drop_first())
        } else {
            (p, sent2, a)
        }
    }
}

/// The transmitter's answers when it takes `k` bytes in a row.
pub open spec fn bytes_taken<E>(k: nat) -> Seq<Poll<Result<(), E>>> {
    Seq::new(k, |i: int| Poll::Ready(Ok(())))
}

/// What `poll_flush` returns for the transmitter's answer `got`.
pub open spec fn flush_spec<E>(got: Poll<Result<(), E>>) -> FlushAction<E> {
    match got {
        Poll::Ready(r) => FlushAction::Ready(r),
        Poll::Pending => FlushAction::Listen,
    }
}

/// The decision of a serial transmitter's `poll_flush`: a finished flush is
/// passed on; an unfinished one makes it listen and return `Pending`.
pub fn flush_action<E>(got: Poll<Result<(), E>>) -> (a: FlushAction<E>)
    ensures
        a == flush_spec(got),
{
    match got {
        Poll::Ready(r) => FlushAction::Ready(r),
        Poll::Pending => FlushAction::Listen,
    }
}

impl SerialWrite {
    /// The number of bytes taken so far.
    pub closed spec fn pos(&self) -> usize {
        self.pos
    }

    /// The length of the buffer being sent.
    pub closed spec fn len(&self) -> usize {
        self.len
    }

    #[verifier::type_invariant]
    closed spec fn counted(&self) -> bool {
        self.pos <= self.len
    }

    /// Starts a transfer of a buffer of `len` bytes.
    pub fn new(len: usize) -> (s: SerialWrite)
        ensures
            s.pos() == 0,
            s.len() == len,
    {
        SerialWrite { pos: 0, len }
    }

    /// What to do before the next byte: hand over the byte at `pos` while
    /// bytes remain, else return the count.
    pub fn action<E>(&self, buf: &[u8]) -> (a: WriteAction<E>)
        requires
            buf@.len() == self.len(),
        ensures
            self.pos() <= self.len(),
            a == send_action::<E>(self.pos() as nat, buf@),
    {
        proof {
            use_type_invariant(self);
        }
        if self.pos < self.len {
            WriteAction::Put(buf[self.pos])
        } else {
            WriteAction::Ready(Ok(self.pos))
        }
    }

    /// Feeds the transmitter's answer to a `Put`.
    pub fn feed<E>(&mut self, buf: &[u8], got: Poll<Result<(), E>>) -> (a: WriteAction<E>)
        requires
            old(self).pos() < old(self).len(),
            buf@.len() == old(self).len(),
        ensures
            final(self).len() == old(self).len(),
            final(self).pos() <= final(self).len(),
            (final(self).pos() as nat, a) == write_step(old(self).pos() as nat, buf@, got),
    {
        match got {
            Poll::Ready(Ok(())) => {
                self.pos = self.pos + 1;
                self.action(buf)
            },
            Poll::Ready(Err(e)) => WriteAction::Ready(Err(e)),
            Poll::Pending => {
                if self.pos > 0 {
                    WriteAction::Ready(Ok(self.pos))
                } else {
                    WriteAction::Listen
                }
            },
        }
    }
}

/// A transfer from `pos` while the transmitter takes `k` bytes and then is busy.
proof fn lemma_write_run_from<E>(pos: nat, buf: Seq<u8>, k: nat)
    requires
        pos <= buf.len(),
        buf.len() <= usize::MAX,
    ensures
        ({
            let n = if pos + k < buf.len() {
                pos + k
            } else {
                buf.len()
            };
            let (m, sent, a) = write_run(
                pos,
                buf,
                buf.subrange(0, pos as int),
                bytes_taken::<E>(k).push(Poll::Pending),
            );
            &&& m == n
            &&& sent == buf.subrange(0, n as int)
            &&& a == if pos + k < buf.len() {
                if n > 0 {
                    WriteAction::<E>::Ready(Ok(n as usize))
                } else {
                    WriteAction::<E>::Listen
                }
            } else {
                WriteAction::<E>::Ready(Ok(buf.len() as usize))
            }
        }),
    decreases k,
{
    let events = bytes_taken::<E>(k).push(Poll::Pending);
    if pos >= buf.len() {
    } else if k == 0 {
        assert(events[0] == Poll::<Result<(), E>>::Pending);
    } else {
        assert(events[0] == Poll::<Result<(), E>>::Ready(Ok(())));
        assert(events.drop_first() =~= bytes_taken::<E>((k - 1) as nat).push(Poll::Pending));
        assert(buf.subrange(0, pos as int).push(buf[pos as int]) =~= buf.subrange(0, pos + 1 as int));
        if pos + 1 < buf.len() {
            lemma_write_run_from::<E>(pos + 1, buf, (k - 1) as nat);
        }
    }
}

/// Law: a transfer hands the transmitter the bytes of the buffer in order, one
/// per byte taken, and answers with the number taken. When the transmitter
/// takes `k` bytes and then is busy, the bytes taken are the first `k` of the
/// buffer (all of them when `k` reaches its length), and the answer is
/// `Ready(Ok(k))`, `Listen` (that is, `Pending`) when `k` is zero, or
/// `Ready(Ok(len))` when the whole buffer went out.
pub proof fn lemma_transfer_sends_prefix<E>(buf: Seq<u8>, k: nat)
    requires
        buf.len() <= usize::MAX,
    ensures
        ({
            let (n, sent, a) = write_run(0, buf, Seq::empty(), bytes_taken::<E>(k).push(Poll::Pending));
            if k < buf.len() {
                &&& n == k
                &&& sent == buf.subrange(0, k as int)
                &&& a == if k > 0 {
                    WriteAction::<E>::Ready(Ok(k as usize))
                } else {
                    WriteAction::<E>::Listen
                }
            } else {
                &&& n == buf.len()
                &&& sent == buf
                &&& a == WriteAction::<E>::Ready(Ok(buf.len() as usize))
            }
        }),
{
    assert(buf.subrange(0, 0) =~= Seq::<u8>::empty());
    lemma_write_run_from::<E>(0, buf, k);
    assert(buf.subrange(0, buf.len() as int) =~= buf);
}

/// Law: each `Put` of a transfer hands the transmitter the buffer's byte at
/// the count of bytes already taken, and a transfer with every byte taken
/// answers with the buffer's length.
pub proof fn lemma_put_hands_next_byte<E>(pos: nat, buf: Seq<u8>)
    requires
        buf.len() <= usize::MAX,
    ensures
        pos < buf.len() ==> send_action::<E>(pos, buf) == WriteAction::<E>::Put(buf[pos as int]),
        send_action::<E>(buf.len(), buf) == WriteAction::<E>::Ready(Ok(buf.len() as usize)),
{
}

/// A transfer from `pos` while the transmitter takes `k` bytes and then fails.
proof fn lemma_write_run_fails_from<E>(pos: nat, buf: Seq<u8>, k: nat, e: E)
    requires
        pos + k < buf.len(),
        buf.len() <= usize::MAX,
    ensures
        write_run(
            pos,
            buf,
            buf.subrange(0, pos as int),
            bytes_taken::<E>(k).push(Poll::Ready(Err(e))),
        ) == (pos + k, buf.subrange(0, (pos + k) as int), WriteAction::<E>::Ready(Err(e))),
    decreases k,
{
    let events = bytes_taken::<E>(k).push(Poll::Ready(Err(e)));
    if k == 0 {
        assert(events[0] == Poll::<Result<(), E>>::Ready(Err(e)));
    } else {
        assert(events[0] == Poll::<Result<(), E>>::Ready(Ok(())));
        assert(events.drop_first() =~= bytes_taken::<E>((k - 1) as nat).push(Poll::Ready(Err(e))));
        assert(buf.subrange(0, pos as int).push(buf[pos as int]) =~= buf.subrange(0, pos + 1 as int));
        lemma_write_run_fails_from::<E>(pos + 1, buf, (k - 1) as nat, e);
    }
}

/// Law: a transmitter error is passed on, whatever was taken before it. When
/// the transmitter takes `k` bytes (fewer than the buffer holds) and then
/// fails with `e`, the transfer answers `Ready(Err(e))`, having handed over
/// exactly the first `k` bytes.
pub proof fn lemma_transmitter_error_is_passed_on<E>(buf: Seq<u8>, k: nat, e: E)
    requires
        k < buf.len(),
        buf.len() <= usize::MAX,
    ensures
        write_run(0, buf, Seq::empty(), bytes_taken::<E>(k).push(Poll::Ready(Err(e)))) == (
            k,
            buf.subrange(0, k as int),
            WriteAction::<E>::Ready(Err(e)),
        ),
{
    assert(buf.subrange(0, 0) =~= Seq::<u8>::empty());
    lemma_write_run_fails_from::<E>(0, buf, k, e);
}

} // verus!
