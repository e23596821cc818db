use vstd::prelude::*;

use crate::utils::io::write::{Write, WriteCall};
use crate::poll::Poll;

verus! {

/// Why `write_all` failed.
#[derive(Debug, PartialEq, Eq)]
pub enum Error<T> {
    /// The writer took no byte although some remained.
    WriteZero,
    /// The writer failed with this error.
    Other(T),
}

impl<T> From<T> for Error<T> {
    fn from(err: T) -> (r: Self) {
        Error::Other(err)
    }
}

impl<T> vstd::std_specs::convert::FromSpecImpl<T> for Error<T> {
    open spec fn obeys_from_spec() -> bool {
        true
    }

    open spec fn from_spec(v: T) -> Self {
        Error::Other(v)
    }
}

/// The state of a `write_all` that is polled to completion: the bytes to
/// write, and how many of them the writer has taken so far.
pub struct WriteAll<'a> {
    buf: &'a [u8],
    position: usize,
}

/// One step of `write_all`: the writer answered `got` when handed the bytes
/// from `position` on, out of `len`. Gives the new position and, unless the
/// loop goes on, the result of the poll. A busy writer makes the poll pending;
/// an error is wrapped in `Other`; a writer that takes nothing gives
/// `WriteZero`; otherwise the position moves on by what was taken, and the
/// poll is done once it reaches `len`.
pub open spec fn write_all_step<E>(position: nat, len: nat, got: Poll<Result<usize, E>>) -> (
    nat,
    Option<Poll<Result<(), Error<E>>>>,
) {
    match got {
        Poll::Pending => (position, Some(Poll::Pending)),
        Poll::Ready(Err(e)) => (position, Some(Poll::Ready(Err(Error::Other(e))))),
        Poll::Ready(Ok(amount)) => if amount == 0 {
            (position, Some(Poll::Ready(Err(Error::WriteZero))))
        } else if position + amount < len {
            ((position + amount) as nat, None)
        } else {
            ((position + amount) as nat, Some(Poll::Ready(Ok(()))))
        },
    }
}

/// The polls of `write_all` from `position` while the writer answers `answers`
/// in turn, for as long as the loop asks. Gives the final position and, when
/// the answers sufficed, the result.
pub open spec fn write_all_run<E>(position: nat, len: nat, answers: Seq<Poll<Result<usize, E>>>) -> (
    nat,
    Option<Poll<Result<(), Error<E>>>>,
)
    decreases answers.len(),
{
    if position >= len {
        (position, Some(Poll::Ready(Ok(()))))
    } else if answers.len() == 0 {
        (position, None)
    } else {
        let (p, r) = write_all_step(position, len, answers[0]);
        if r is Some {
            (p, r)
        } else {
            write_all_run(p, len, answers.drop_first())
        }
    }
}

/// The answers of the calls `calls`.
pub open spec fn answers_of<E>(calls: Seq<WriteCall<E>>) -> Seq<Poll<Result<usize, E>>> {
    calls.map_values(|c: WriteCall<E>| c.answer)
}

/// `calls` are the calls that `write_all` makes of the writer from
/// `position`: each is made while bytes remain and is handed all the bytes
/// from the position reached so far to the end, the position moving on as
/// [`write_all_step`] says; no call follows one whose answer ends the poll.
pub open spec fn offers_rest<E>(position: nat, bytes: Seq<u8>, calls: Seq<WriteCall<E>>) -> bool
    decreases calls.len(),
{
    if calls.len() == 0 {
        true
    } else {
        &&& position < bytes.len()
        &&& calls[0].offered == bytes.subrange(position as int, bytes.len() as int)
        &&& {
            let (p, r) = write_all_step(position, bytes.len(), calls[0].answer);
            if r is Some {
                calls.len() == 1
            } else {
                offers_rest(p, bytes, calls.drop_first())
            }
        }
    }
}

/// The writer's answers when it takes the amounts `amounts` in turn.
pub open spec fn amounts_taken<E>(amounts: Seq<usize>) -> Seq<Poll<Result<usize, E>>> {
    amounts.map_values(|a: usize| Poll::Ready(Ok(a)))
}

/// The sum of `amounts`.
pub open spec fn total(amounts: Seq<usize>) -> nat
    decreases amounts.len(),
{
    if amounts.len() == 0 {
        0
    } else {
        (amounts[0] + total(amounts.drop_first())) as nat
    }
}

/// Decides one step of `write_all` from the writer's answer `got`.
pub fn advance<E>(position: usize, len: usize, got: Poll<Result<usize, E>>) -> (r: (
    usize,
    Option<Poll<Result<(), Error<E>>>>,
))
    requires
        got matches Poll::Ready(Ok(n)) ==> position + n <= usize::MAX,
    ensures
        (r.0 as nat, r.1) == write_all_step(position as nat, len as nat, got),
{
    match got {
        Poll::Pending => (position, Some(Poll::Pending)),
        Poll::Ready(Err(e)) => (position, Some(Poll::Ready(Err(Error::Other(e))))),
        Poll::Ready(Ok(amount)) => {
            if amount == 0 {
                (position, Some(Poll::Ready(Err(Error::WriteZero))))
            } else if position + amount < len {
                (position + amount, None)
            } else {
                (position + amount, Some(Poll::Ready(Ok(()))))
            }
        },
    }
}

/// Starts writing all of `buf`; poll the result with a writer until it is
/// ready.
pub fn write_all<'a>(buf: &'a [u8]) -> (w: WriteAll<'a>)
    ensures
        w.bytes() == buf@,
        w.position() == 0,
{
    WriteAll { buf, position: 0 }
}

impl<'a> WriteAll<'a> {
    #[verifier::type_invariant]
    closed spec fn within(&self) -> bool {
        self.position <= self.buf@.len()
    }

    /// The bytes to write.
    pub closed spec fn bytes(&self) -> Seq<u8> {
        self.buf@
    }

    /// How many of the bytes the writer has taken.
    pub closed spec fn position(&self) -> nat {
        self.position as nat
    }

    /// Polls the write: hands `writer` the bytes from the current position on,
    /// again and again while it takes some. Ready with `Ok` once every byte
    /// was taken; `WriteZero` when the writer took none while some remained;
    /// `Other` with the writer's error; `Pending` when the writer is busy, to
    /// be polled again with the same writer.
    pub fn poll<W: Write>(&mut self, writer: &mut W) -> (r: Poll<Result<(), Error<W::Error>>>)
        ensures
            final(self).bytes() == old(self).bytes(),
            old(self).position() <= final(self).position(),
            final(self).position() <= final(self).bytes().len(),
            r matches Poll::Ready(Ok(())) <==> final(self).position() == final(self).bytes().len(),
            r matches Poll::Ready(Err(Error::WriteZero)) ==> final(self).position()
                < final(self).bytes().len(),
            exists|answers: Seq<Poll<Result<usize, W::Error>>>|
                write_all_run(old(self).position(), old(self).bytes().len(), answers) == (
                    final(self).position(),
                    Some(r),
                ),
            W::obeys_log() ==> ({
                let before = old(writer).calls();
                let after = final(writer).calls();
                let made = after.subrange(before.len() as int, after.len() as int);
                &&& before.len() <= after.len()
                &&& after.subrange(0, before.len() as int) == before
                &&& offers_rest(old(self).position(), old(self).bytes(), made)
                &&& write_all_run(old(self).position(), old(self).bytes().len(), answers_of(made))
                    == (final(self).position(), Some(r))
            }),
            W::obeys_log() ==> match r {
                Poll::Ready(Err(Error::Other(_))) => exists|k: int|
                    final(self).position() <= k <= final(self).bytes().len() && final(writer).sent()
                        == old(writer).sent() + final(self).bytes().subrange(
                        old(self).position() as int,
                        k,
                    ),
                _ => final(writer).sent() == old(writer).sent() + final(self).bytes().subrange(
                    old(self).position() as int,
                    final(self).position() as int,
                ),
            },
    {
        proof {
            use_type_invariant(&*self);
        }
        let ghost start = self.position as nat;
        let ghost mut answers: Seq<Poll<Result<usize, W::Error>>> = Seq::empty();
        let ghost base = old(writer).calls().len();
        loop
            invariant
                self.bytes() == old(self).bytes(),
                start == old(self).position(),
                base == old(writer).calls().len(),
                start <= self.position <= self.buf@.len(),
                answers.len() == 0 || self.position < self.buf@.len(),
                W::obeys_log() ==> writer.sent() == old(writer).sent() + self.buf@.subrange(
                    start as int,
                    self.position as int,
                ),
                W::obeys_log() ==> ({
                    let made = writer.calls().subrange(base as int, writer.calls().len() as int);
                    &&& base <= writer.calls().len()
                    &&& writer.calls().subrange(0, base as int) == old(writer).calls()
                    &&& offers_rest(start, self.buf@, made)
                    &&& answers_of(made) == answers
                }),
                write_all_run(start, self.buf@.len(), answers) == (
                    self.position as nat,
                    if self.position >= self.buf@.len() {
                        Some(Poll::<Result<(), Error<W::Error>>>::Ready(Ok(())))
                    } else {
                        None
                    },
                ),
            decreases self.buf@.len() - self.position,
        {
            let len = self.buf.len();
            if self.position >= len {
                return Poll::Ready(Ok(()));
            }
            let chunk = vstd::slice::slice_subrange(self.buf, self.position, len);
            let ghost before = writer.sent();
            let ghost calls_before = writer.calls();
            let got = writer.poll_write(chunk);
            let ghost pos = self.position as int;
            proof {
                if W::obeys_log() {
                    let bytes = self.buf@;
                    let call = writer.calls().last();
                    let made = calls_before.subrange(base as int, calls_before.len() as int);
                    lemma_offers_push(start, bytes, made, call);
                    assert(writer.calls().subrange(base as int, writer.calls().len() as int)
                        =~= made.push(call));
                    assert(writer.calls().subrange(0, base as int) =~= calls_before.subrange(
                        0,
                        base as int,
                    ));
                    assert(answers_of(made.push(call)) =~= answers_of(made).push(call.answer));
                    let k = call.taken.len() as int;
                    assert(before + chunk@.subrange(0, k) =~= old(writer).sent() + bytes.subrange(
                        start as int,
                        pos + k,
                    ));
                }
                lemma_run_push(start, len as nat, answers, got);
                answers = answers.push(got);
            }
            let (p, done) = advance(self.position, len, got);
            self.position = p;
            match done {
                Some(r) => {
                    return r;
                },
                None => {},
            }
        }
    }
}

/// One more call, handed the rest of the bytes, after calls that left the
/// poll going on.
proof fn lemma_offers_push<E>(position: nat, bytes: Seq<u8>, calls: Seq<WriteCall<E>>, call: WriteCall<E>)
    requires
        offers_rest(position, bytes, calls),
        write_all_run(position, bytes.len(), answers_of(calls)).1 is None,
        call.offered == bytes.subrange(
            write_all_run(position, bytes.len(), answers_of(calls)).0 as int,
            bytes.len() as int,
        ),
    ensures
        offers_rest(position, bytes, calls.push(call)),
    decreases calls.len(),
{
    let pushed = calls.push(call);
    if calls.len() == 0 {
        assert(pushed[0] == call);
        assert(pushed.drop_first() =~= Seq::<WriteCall<E>>::empty());
        let (p, r) = write_all_step(position, bytes.len(), call.answer);
        assert(offers_rest(p, bytes, pushed.drop_first()));
    } else {
        let answers = answers_of(calls);
        assert(answers[0] == calls[0].answer);
        assert(answers.drop_first() =~= answers_of(calls.drop_first()));
        let (p, r) = write_all_step(position, bytes.len(), calls[0].answer);
        assert(pushed[0] == calls[0]);
        assert(pushed.drop_first() =~= calls.drop_first().push(call));
        lemma_offers_push(p, bytes, calls.drop_first(), call);
    }
}

/// One more answer after a run that is still going on at `position`.
proof fn lemma_run_push<E>(start: nat, len: nat, answers: Seq<Poll<Result<usize, E>>>, got: Poll<Result<usize, E>>)
    requires
        write_all_run(start, len, answers).1 is None,
    ensures
        ({
            let position = write_all_run(start, len, answers).0;
            let (p, r) = write_all_step(position, len, got);
            write_all_run(start, len, answers.push(got)) == if r is Some {
                (p, r)
            } else {
                write_all_run(p, len, Seq::empty())
            }
        }),
    decreases answers.len(),
{
    if answers.len() == 0 {
        assert(answers.push(got).drop_first() =~= Seq::<Poll<Result<usize, E>>>::empty());
    } else {
        let (p, r) = write_all_step(start, len, answers[0]);
        assert(answers.push(got)[0] == answers[0]);
        assert(answers.push(got).drop_first() =~= answers.drop_first().push(got));
        lemma_run_push(p, len, answers.drop_first(), got);
    }
}

/// Before its last answer, `write_all` moves by exactly what the writer takes.
proof fn lemma_run_moves_by_amounts<E>(
    position: nat,
    len: nat,
    amounts: Seq<usize>,
    last: Poll<Result<usize, E>>,
)
    requires
        forall|i: int| 0 <= i < amounts.len() ==> amounts[i] > 0,
        position + total(amounts) < len,
    ensures
        write_all_run(position, len, amounts_taken::<E>(amounts).push(last)) == write_all_step(
            position + total(amounts),
            len,
            last,
        ),
    decreases amounts.len(),
{
    let answers = amounts_taken::<E>(amounts).push(last);
    if amounts.len() == 0 {
        assert(answers[0] == last);
        assert(total(amounts) == 0);
        let (p, r) = write_all_step(position, len, last);
        if r is None {
            assert(answers.drop_first().len() == 0);
            assert(write_all_run(p, len, answers.drop_first()) == (p, r));
        }
        assert(write_all_run(position, len, answers) == (p, r));
    } else {
        let a = amounts[0];
        let rest = amounts.drop_first();
        assert(answers[0] == Poll::<Result<usize, E>>::Ready(Ok(a)));
        assert(answers.drop_first() =~= amounts_taken::<E>(rest).push(last));
        assert forall|i: int| 0 <= i < rest.len() implies rest[i] > 0 by {
            assert(rest[i] == amounts[i + 1]);
        }
        assert(total(amounts) == a + total(rest));
        lemma_run_moves_by_amounts::<E>((position + a) as nat, len, rest, last);
        assert(write_all_step(position, len, answers[0]) == ((position + a) as nat, None::<
            Poll<Result<(), Error<E>>>,
        >));
    }
}

/// Law: `write_all` moves on by exactly what the writer takes, and only the
/// writer's last answer decides how it ends. When the writer first takes the
/// non-zero amounts `amounts` (not yet all the bytes), the run continues from
/// `total(amounts)` as if that answer came first: it completes when the answer
/// takes the rest, gives `WriteZero` when it takes nothing, passes an error
/// on wrapped in `Other`, and is pending, where it stands, when the writer is
/// busy -- also before any byte was taken. For a writer that keeps a log,
/// `poll` ensures that its result is this run over the answers of the calls
/// it made, so the law holds of real polls.
pub proof fn lemma_write_all_takes_amounts<E>(len: nat, amounts: Seq<usize>, last: Poll<Result<usize, E>>)
    requires
        forall|i: int| 0 <= i < amounts.len() ==> amounts[i] > 0,
        total(amounts) < len,
        len <= usize::MAX,
    ensures
        write_all_run(0, len, amounts_taken::<E>(amounts).push(last)) == write_all_step(
            total(amounts),
            len,
            last,
        ),
        last == Poll::<Result<usize, E>>::Ready(Ok((len - total(amounts)) as usize)) ==> write_all_run(
            0,
            len,
            amounts_taken::<E>(amounts).push(last),
        ) == (len, Some(Poll::<Result<(), Error<E>>>::Ready(Ok(())))),
        last == Poll::<Result<usize, E>>::Ready(Ok(0)) ==> write_all_run(
            0,
            len,
            amounts_taken::<E>(amounts).push(last),
        ) == (total(amounts), Some(Poll::<Result<(), Error<E>>>::Ready(Err(Error::WriteZero)))),
        last == Poll::<Result<usize, E>>::Pending ==> write_all_run(
            0,
            len,
            amounts_taken::<E>(amounts).push(last),
        ) == (total(amounts), Some(Poll::<Result<(), Error<E>>>::Pending)),
        last matches Poll::Ready(Err(e)) ==> write_all_run(
            0,
            len,
            amounts_taken::<E>(amounts).push(last),
        ) == (total(amounts), Some(Poll::<Result<(), Error<E>>>::Ready(Err(Error::Other(e))))),
{
    lemma_run_moves_by_amounts::<E>(0, len, amounts, last);
}

/// Law: across its polls, `write_all` hands the writer every byte of its
/// buffer exactly once, in order. Each poll adds to what the writer took the
/// bytes from where it started to where it ended (its `ensures`); two polls in
/// a row thus add the bytes from the first start to the last end, and a
/// `write_all` polled from position 0 until it completes has added the whole
/// buffer to the `sent` of a writer that keeps a log.
pub proof fn lemma_polls_send_each_byte_once(
    bytes: Seq<u8>,
    sent0: Seq<u8>,
    sent1: Seq<u8>,
    sent2: Seq<u8>,
    p0: nat,
    p1: nat,
    p2: nat,
)
    requires
        p0 <= p1 <= p2 <= bytes.len(),
        sent1 == sent0 + bytes.subrange(p0 as int, p1 as int),
        sent2 == sent1 + bytes.subrange(p1 as int, p2 as int),
    ensures
        sent2 == sent0 + bytes.subrange(p0 as int, p2 as int),
        p0 == 0 && p2 == bytes.len() ==> sent2 == sent0 + bytes,
{
    assert(sent0 + bytes.subrange(p0 as int, p1 as int) + bytes.subrange(p1 as int, p2 as int)
        =~= sent0 + bytes.subrange(p0 as int, p2 as int));
    if p0 == 0 && p2 == bytes.len() {
        assert(bytes.subrange(0, bytes.len() as int) =~= bytes);
    }
}

/// Law: how `write_all` ends is the writer's doing. Whatever the writer
/// answers, from any position: a pending poll had a busy writer, `WriteZero`
/// came from a writer that took no byte (`Ready(Ok(0))`), and `Other(e)` from
/// a writer that failed with `e`; and a busy writer at any position leaves the
/// poll pending where it stands.
pub proof fn lemma_write_all_outcomes_come_from_answers<E>(
    position: nat,
    len: nat,
    answers: Seq<Poll<Result<usize, E>>>,
)
    ensures
        write_all_step(position, len, Poll::<Result<usize, E>>::Pending) == (
            position,
            Some(Poll::<Result<(), Error<E>>>::Pending),
        ),
        write_all_run(position, len, answers).1 == Some(Poll::<Result<(), Error<E>>>::Pending)
            ==> exists|i: int| 0 <= i < answers.len() && answers[i] == Poll::<Result<usize, E>>::Pending,
        write_all_run(position, len, answers).1 == Some(
            Poll::<Result<(), Error<E>>>::Ready(Err(Error::WriteZero)),
        ) ==> exists|i: int|
            0 <= i < answers.len() && answers[i] == Poll::<Result<usize, E>>::Ready(Ok(0)),
        forall|e: E|
            write_all_run(position, len, answers).1 == Some(
                Poll::<Result<(), Error<E>>>::Ready(Err(Error::Other(e))),
            ) ==> exists|i: int|
                0 <= i < answers.len() && answers[i] == Poll::<Result<usize, E>>::Ready(Err(e)),
    decreases answers.len(),
{
    if position < len && answers.len() > 0 {
        let (p, r) = write_all_step(position, len, answers[0]);
        if r is None {
            lemma_write_all_outcomes_come_from_answers(p, len, answers.drop_first());
            let rest = answers.drop_first();
            assert forall|i: int| 0 <= i < rest.len() implies rest[i] == answers[i + 1] by {}
            assert forall|e: E|
                write_all_run(position, len, answers).1 == Some(
                    Poll::<Result<(), Error<E>>>::Ready(Err(Error::Other(e))),
                ) implies exists|i: int|
                0 <= i < answers.len() && answers[i] == Poll::<Result<usize, E>>::Ready(Err(e)) by {
                let j = choose|j: int| 0 <= j < rest.len() && rest[j] == Poll::<Result<usize, E>>::Ready(Err(e));
                assert(answers[j + 1] == rest[j]);
            }
            if write_all_run(position, len, answers).1 == Some(Poll::<Result<(), Error<E>>>::Pending) {
                let j = choose|j: int| 0 <= j < rest.len() && rest[j] == Poll::<Result<usize, E>>::Pending;
                assert(answers[j + 1] == rest[j]);
            }
            if write_all_run(position, len, answers).1 == Some(
                Poll::<Result<(), Error<E>>>::Ready(Err(Error::WriteZero)),
            ) {
                let j = choose|j: int| 0 <= j < rest.len() && rest[j] == Poll::<Result<usize, E>>::Ready(Ok(0));
                assert(answers[j + 1] == rest[j]);
            }
        } else {
            assert forall|e: E|
                write_all_run(position, len, answers).1 == Some(
                    Poll::<Result<(), Error<E>>>::Ready(Err(Error::Other(e))),
                ) implies exists|i: int|
                0 <= i < answers.len() && answers[i] == Poll::<Result<usize, E>>::Ready(Err(e)) by {
                assert(answers[0] == Poll::<Result<usize, E>>::Ready(Err(e)));
            }
            if write_all_run(position, len, answers).1 == Some(Poll::<Result<(), Error<E>>>::Pending) {
                assert(answers[0] == Poll::<Result<usize, E>>::Pending);
            }
            if write_all_run(position, len, answers).1 == Some(
                Poll::<Result<(), Error<E>>>::Ready(Err(Error::WriteZero)),
            ) {
                assert(answers[0] == Poll::<Result<usize, E>>::Ready(Ok(0)));
            }
        }
    }
}

} // verus!
