use vstd::prelude::*;

use crate::poll::Poll;

verus! {

/// One call of `poll_read`: the room in the buffer it was handed, its
/// answer, and the bytes the source handed out into that buffer.
pub struct ReadCall<E> {
    pub room: nat,
    pub answer: Poll<Result<usize, E>>,
    pub handed: Seq<u8>,
}

/// What a source may do in one call: hand out at most as many bytes as there
/// is room for; `n` of them when it answers `Ready(Ok(n))`, none when it
/// answers `Pending`, and some, possibly none, when it fails.
pub open spec fn read_call_ok<E>(call: ReadCall<E>) -> bool {
    &&& call.handed.len() <= call.room
    &&& match call.answer {
        Poll::Ready(Ok(n)) => call.handed.len() == n,
        Poll::Ready(Err(_)) => true,
        Poll::Pending => call.handed.len() == 0,
    }
}

/// A source of bytes that is polled.
///
/// `poll_read` fills the front of `buf` with what is available. It returns
/// `Ready(Ok(n))` when it handed out `n <= buf.len()` bytes, stored at the
/// front of `buf`; `Ready(Err(e))` when the source failed, after it handed out
/// some bytes into the front of `buf`, possibly none; or `Pending` when nothing
/// was available, in which case the implementation arranges for the executor
/// to be woken when there is.
///
/// An implementation that keeps a log of its calls says so with `obeys_log`,
/// and then describes each call of `poll_read` in `calls` and everything it
/// handed out in `received`. The defaults keep no log and claim nothing of the
/// calls: what callers prove of the calls holds of the implementations that
/// keep one.
pub trait Read {
    type Error;

    /// Whether this implementation keeps the log `calls` and `received`.
    open spec fn obeys_log() -> bool {
        false
    }

    /// The calls of `poll_read` so far, in order.
    open spec fn calls(&self) -> Seq<ReadCall<Self::Error>> {
        Seq::empty()
    }

    /// Every byte the source has handed out, in order.
    open spec fn received(&self) -> Seq<u8> {
        Seq::empty()
    }

    fn poll_read(&mut self, buf: &mut [u8]) -> (r: Poll<Result<usize, Self::Error>>)
        ensures
            final(buf)@.len() == old(buf)@.len(),
            r matches Poll::Ready(Ok(n)) ==> n <= old(buf)@.len(),
            Self::obeys_log() ==> ({
                let call = final(self).calls().last();
                &&& final(self).calls() == old(self).calls().push(call)
                &&& call.room == old(buf)@.len()
                &&& call.answer == r
                &&& read_call_ok(call)
                &&& call.handed == final(buf)@.subrange(0, call.handed.len() as int)
                &&& final(self).received() == old(self).received() + call.handed
            }),
    ;
}

/// What a serial receiver's `poll_read` does next.
#[derive(Debug, PartialEq, Eq)]
pub enum ReadAction<E> {
    /// Take one byte from the receiver and feed it back.
    Fetch,
    /// Return `Poll::Ready` with this result.
    Ready(Result<usize, E>),
    /// Enable the receive interrupt and return `Poll::Pending`.
    Listen,
}

/// The state of one `poll_read` on a serial receiver that hands out one byte
/// at a time: `pos` bytes of a buffer of `len` bytes are filled.
pub struct SerialRead {
    pos: usize,
    len: usize,
}

/// What the fill does when `pos` of `len` bytes are stored and it may go on.
pub open spec fn fill_action<E>(pos: nat, len: nat) -> ReadAction<E> {
    if pos < len {
        ReadAction::Fetch
    } else {
        ReadAction::Ready(Ok(pos as usize))
    }
}

/// One step of the fill: the receiver answered `got` while `pos` bytes of
/// `buf` were stored. Gives the new count, the new buffer and what to do next.
/// A byte is stored at `pos`; an error is passed on; no byte ends the fill
/// with the count so far, or, when nothing was stored, with `Listen`.
pub open spec fn read_step<E>(pos: nat, len: nat, buf: Seq<u8>, got: Poll<Result<u8, E>>) -> (
    nat,
    Seq<u8>,
    ReadAction<E>,
) {
    match got {
        Poll::Ready(Ok(v)) => (pos + 1, buf.update(pos as int, v), fill_action(pos + 1, len)),
        Poll::Ready(Err(e)) => (pos, buf, ReadAction::Ready(Err(e))),
        Poll::Pending => (
            pos,
            buf,
            if pos > 0 {
                ReadAction::Ready(Ok(pos as usize))
            } else {
                ReadAction::Listen
            },
        ),
    }
}

/// A whole fill from `pos`: the receiver answers `events` in turn, for as long
/// as the fill asks for bytes. Gives the final count, buffer and action.
pub open spec fn read_run<E>(pos: nat, len: nat, buf: Seq<u8>, events: Seq<Poll<Result<u8, E>>>) -> (
    nat,
    Seq<u8>,
    ReadAction<E>,
)
    decreases events.len(),
{
    if pos >= len {
        (pos, buf, ReadAction::Ready(Ok(pos as usize)))
    } else if events.len() == 0 {
        (pos, buf, ReadAction::Fetch)
    } else {
        let (p, b, a) = read_step(pos, len, buf, events[0]);
        if a is Fetch {
            read_run(p, len, b, events.drop_first())
        } else {
            (p, b, a)
        }
    }
}

/// The receiver's answers when it hands out the bytes `bs`.
pub open spec fn bytes_received<E>(bs: Seq<u8>) -> Seq<Poll<Result<u8, E>>> {
    bs.map_values(|b: u8| Poll::Ready(Ok(b)))
}

impl SerialRead {
    /// The number of bytes stored so far.
    pub closed spec fn pos(&self) -> usize {
        self.pos
    }

    /// The length of the buffer being filled.
    pub closed spec fn len(&self) -> usize {
        self.len
    }

    #[verifier::type_invariant]
    closed spec fn counted(&self) -> bool {
        self.pos <= self.len
    }

    /// Starts a fill of a buffer of `len` bytes.
    pub fn new(len: usize) -> (s: SerialRead)
        ensures
            s.pos() == 0,
            s.len() == len,
    {
        SerialRead { pos: 0, len }
    }

    /// What to do before the next byte: fetch one while the buffer has room,
    /// else return the count.
    pub fn action<E>(&self) -> (a: ReadAction<E>)
        ensures
            self.pos() <= self.len(),
            a == fill_action::<E>(self.pos() as nat, self.len() as nat),
    {
        proof {
            use_type_invariant(self);
        }
        if self.pos < self.len {
            ReadAction::Fetch
        } else {
            ReadAction::Ready(Ok(self.pos))
        }
    }

    /// Feeds the receiver's answer to a `Fetch`, storing a byte in `buf`.
    pub fn feed<E>(&mut self, buf: &mut [u8], got: Poll<Result<u8, E>>) -> (a: ReadAction<E>)
        requires
            old(self).pos() < old(self).len(),
            old(buf)@.len() == old(self).len(),
        ensures
            final(self).len() == old(self).len(),
            final(self).pos() <= final(self).len(),
            (final(self).pos() as nat, final(buf)@, a) == read_step(
                old(self).pos() as nat,
                old(self).len() as nat,
                old(buf)@,
                got,
            ),
    {
        match got {
            Poll::Ready(Ok(v)) => {
                buf[self.pos] = v;
                self.pos = self.pos + 1;
                self.action()
            },
            Poll::Ready(Err(e)) => ReadAction::Ready(Err(e)),
            Poll::Pending => {
                if self.pos > 0 {
                    ReadAction::Ready(Ok(self.pos))
                } else {
                    ReadAction::Listen
                }
            },
        }
    }
}

/// A fill from `pos` while the receiver hands out `bs` and then runs dry.
proof fn lemma_read_run_from<E>(pos: nat, len: nat, buf: Seq<u8>, bs: Seq<u8>)
    requires
        buf.len() == len,
        pos <= len,
        len <= usize::MAX,
    ensures
        ({
            let k = if pos + bs.len() < len {
                bs.len()
            } else {
                (len - pos) as nat
            };
            let n = pos + k;
            let (m, out, a) = read_run(pos, len, buf, bytes_received::<E>(bs).push(Poll::Pending));
            &&& m == n
            &&& out == buf.subrange(0, pos as int) + bs.subrange(0, k as int) + buf.subrange(
                n as int,
                len as int,
            )
            &&& a == if pos + bs.len() < len {
                if n > 0 {
                    ReadAction::<E>::Ready(Ok(n as usize))
                } else {
                    ReadAction::<E>::Listen
                }
            } else {
                ReadAction::<E>::Ready(Ok(len as usize))
            }
        }),
    decreases bs.len(),
{
    let events = bytes_received::<E>(bs).push(Poll::Pending);
    if pos >= len {
        assert(buf.subrange(0, pos as int) + bs.subrange(0, 0) + buf.subrange(pos as int, len as int)
            =~= buf);
    } else if bs.len() == 0 {
        assert(events[0] == Poll::<Result<u8, E>>::Pending);
        assert(buf.subrange(0, pos as int) + bs.subrange(0, 0) + buf.subrange(pos as int, len as int)
            =~= buf);
    } else {
        assert(events[0] == Poll::<Result<u8, E>>::Ready(Ok(bs[0])));
        let b2 = buf.update(pos as int, bs[0]);
        let rest = bs.drop_first();
        assert(events.drop_first() =~= bytes_received::<E>(rest).push(Poll::Pending));
        if pos + 1 < len {
            lemma_read_run_from::<E>(pos + 1, len, b2, rest);
            let k = if pos + bs.len() < len {
                bs.len()
            } else {
                (len - pos) as nat
            };
            let n = pos + k;
            assert(b2.subrange(0, pos + 1 as int) + rest.subrange(0, k - 1 as int) + b2.subrange(n as int, len as int)
                =~= buf.subrange(0, pos as int) + bs.subrange(0, k as int) + buf.subrange(
                n as int,
                len as int,
            ));
        } else {
            assert(b2 =~= buf.subrange(0, pos as int) + bs.subrange(0, 1) + buf.subrange(
                len as int,
                len as int,
            ));
        }
    }
}

/// Law: whatever bytes `bs` the receiver hands out before it runs dry, a fill
/// of an empty buffer stores them in order at its front and leaves the rest of
/// it as it was; it answers `Ready(Ok(n))` with their number `n`, or `Listen`
/// (that is, `Pending`) when there were none. When more bytes are on offer
/// than the buffer holds, it takes exactly enough to fill it and answers with
/// the buffer's length.
pub proof fn lemma_fill_stores_received<E>(len: nat, buf: Seq<u8>, bs: Seq<u8>)
    requires
        buf.len() == len,
        len <= usize::MAX,
    ensures
        ({
            let (n, out, a) = read_run(0, len, buf, bytes_received::<E>(bs).push(Poll::Pending));
            if bs.len() < len {
                &&& n == bs.len()
                &&& out == bs + buf.subrange(bs.len() as int, len as int)
                &&& a == if bs.len() > 0 {
                    ReadAction::<E>::Ready(Ok(bs.len() as usize))
                } else {
                    ReadAction::<E>::Listen
                }
            } else {
                &&& n == len
                &&& out == bs.subrange(0, len as int)
                &&& a == ReadAction::<E>::Ready(Ok(len as usize))
            }
        }),
{
    lemma_read_run_from::<E>(0, len, buf, bs);
    let k = if bs.len() < len { bs.len() } else { len };
    assert(buf.subrange(0, 0) + bs.subrange(0, k as int) + buf.subrange(k as int, len as int)
        =~= bs.subrange(0, k as int) + buf.subrange(k as int, len as int));
    if bs.len() < len {
        assert(bs.subrange(0, k as int) =~= bs);
    } else {
        assert(buf.subrange(len as int, len as int) =~= Seq::<u8>::empty());
        assert(bs.subrange(0, k as int) + buf.subrange(len as int, len as int) =~= bs.subrange(0, len as int));
    }
}

/// A fill from `pos` while the receiver hands out `bs` and then fails.
proof fn lemma_read_run_fails_from<E>(pos: nat, len: nat, buf: Seq<u8>, bs: Seq<u8>, e: E)
    requires
        buf.len() == len,
        pos + bs.len() < len,
        len <= usize::MAX,
    ensures
        read_run(pos, len, buf, bytes_received::<E>(bs).push(Poll::Ready(Err(e)))) == (
            pos + bs.len(),
            buf.subrange(0, pos as int) + bs + buf.subrange((pos + bs.len()) as int, len as int),
            ReadAction::<E>::Ready(Err(e)),
        ),
    decreases bs.len(),
{
    let events = bytes_received::<E>(bs).push(Poll::Ready(Err(e)));
    if bs.len() == 0 {
        assert(events[0] == Poll::<Result<u8, E>>::Ready(Err(e)));
        assert(buf.subrange(0, pos as int) + bs + buf.subrange(pos as int, len as int) =~= buf);
    } else {
        assert(events[0] == Poll::<Result<u8, E>>::Ready(Ok(bs[0])));
        let b2 = buf.update(pos as int, bs[0]);
        let rest = bs.drop_first();
        assert(events.drop_first() =~= bytes_received::<E>(rest).push(Poll::Ready(Err(e))));
        lemma_read_run_fails_from::<E>(pos + 1, len, b2, rest, e);
        assert(b2.subrange(0, pos + 1 as int) + rest + b2.subrange((pos + 1 + rest.len()) as int, len as int)
            =~= buf.subrange(0, pos as int) + bs + buf.subrange((pos + bs.len()) as int, len as int));
    }
}

/// Law: a receiver error is passed on, whatever was stored before it. When the
/// receiver hands out the bytes `bs` (fewer than the buffer holds) and then
/// fails with `e`, the fill answers `Ready(Err(e))` -- also when `bs` is
/// empty -- with `bs` stored at the front of the buffer and the rest of it as
/// it was. A failing receiver never ends a fill with a count.
pub proof fn lemma_receiver_error_is_passed_on<E>(len: nat, buf: Seq<u8>, bs: Seq<u8>, e: E)
    requires
        buf.len() == len,
        bs.len() < len,
        len <= usize::MAX,
    ensures
        read_run(0, len, buf, bytes_received::<E>(bs).push(Poll::Ready(Err(e)))) == (
            bs.len(),
            bs + buf.subrange(bs.len() as int, len as int),
            ReadAction::<E>::Ready(Err(e)),
        ),
        forall|pos: nat| #![auto]
            read_step(pos, len, buf, Poll::Ready(Err(e))) == (pos, buf, ReadAction::<E>::Ready(Err(e))),
{
    lemma_read_run_fails_from::<E>(0, len, buf, bs, e);
    assert(buf.subrange(0, 0) + bs =~= bs);
}

} // verus!
