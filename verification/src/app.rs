use vstd::prelude::*;

verus! {

/// The error of the dialogue: some read, write or flush failed.
#[derive(Debug, Clone, Copy, PartialEq, Eq, Structural)]
pub struct Error;

/// Where the dialogue stands: which request it last made of its driver.
#[derive(Debug, Clone, Copy, PartialEq, Eq, Structural)]
pub enum Stage {
    /// The prompt is being written.
    Prompt,
    /// The output is being flushed.
    Flush,
    /// A line is being read.
    Read,
    /// The closing newline is being written.
    Farewell,
    /// "Hi " is being written.
    Greet,
    /// The name is being written.
    Name,
    /// The wave is being written.
    Wave,
    /// The apology for a long line is being written.
    Apologize,
    /// The dialogue ended.
    Finished,
}

/// What the driver reports back about the request it carried out.
#[derive(Debug, Clone, Copy, PartialEq, Eq, Structural)]
pub enum Event {
    /// The write or the flush completed.
    Done,
    /// A line was read into the line buffer: its length, delimiter included.
    /// A length of zero means that the input ended.
    Line(usize),
    /// The line did not fit in the line buffer.
    TooLong,
    /// The request failed.
    Failed,
}

/// What the dialogue asks of its driver next.
#[derive(Debug, PartialEq, Eq)]
pub enum Action {
    /// Write all of these bytes to the output.
    Write(Vec<u8>),
    /// Flush the output.
    Flush,
    /// Read a line ending in `'\r'` from the input into the line buffer.
    ReadLine,
    /// The dialogue is over, with this result.
    Finish(Result<(), Error>),
}

/// An [`Action`] with its bytes as a sequence.
pub enum Request {
    Write(Seq<u8>),
    Flush,
    ReadLine,
    Finish(Result<(), Error>),
}

impl View for Action {
    type V = Request;

    open spec fn view(&self) -> Request {
        match self {
            Action::Write(bytes) => Request::Write(bytes@),
            Action::Flush => Request::Flush,
            Action::ReadLine => Request::ReadLine,
            Action::Finish(r) => Request::Finish(*r),
        }
    }
}

/// The byte that ends a line of input.
pub const DELIMITER: u8 = 13;

/// The size of the line buffer.
pub const LINE_CAPACITY: usize = 64;

/// "\nHello, what's your name?\n> "
pub open spec fn prompt_text() -> Seq<u8> {
    seq![
        10u8, 72, 101, 108, 108, 111, 44, 32, 119, 104, 97, 116, 39, 115,
        32, 121, 111, 117, 114, 32, 110, 97, 109, 101, 63, 10, 62, 32,
    ]
}

/// "\n", written when the input ends.
pub open spec fn farewell_text() -> Seq<u8> {
    seq![10u8]
}

/// "Hi "
pub open spec fn greeting_text() -> Seq<u8> {
    seq![72u8, 105, 32]
}

/// " 👋 \n\n" in UTF-8.
pub open spec fn wave_text() -> Seq<u8> {
    seq![32u8, 0xF0, 0x9F, 0x91, 0x8B, 32, 10, 10]
}

/// "\nSorry, that's a bit long for me 😭\n\n" in UTF-8.
pub open spec fn apology_text() -> Seq<u8> {
    seq![
        10u8, 83, 111, 114, 114, 121, 44, 32, 116, 104, 97, 116, 39, 115,
        32, 97, 32, 98, 105, 116, 32, 108, 111, 110, 103, 32, 102, 111, 114,
        32, 109, 101, 32, 0xF0, 0x9F, 0x98, 0xAD, 10, 10,
    ]
}

/// The prompt.
pub fn prompt() -> (v: Vec<u8>)
    ensures
        v@ == prompt_text(),
{
    let v: Vec<u8> = vec![
        10u8, 72, 101, 108, 108, 111, 44, 32, 119, 104, 97, 116, 39, 115,
        32, 121, 111, 117, 114, 32, 110, 97, 109, 101, 63, 10, 62, 32,
    ];
    assert(v@ =~= prompt_text());
    v
}

/// The closing newline.
pub fn farewell() -> (v: Vec<u8>)
    ensures
        v@ == farewell_text(),
{
    let v: Vec<u8> = vec![10u8];
    assert(v@ =~= farewell_text());
    v
}

/// "Hi ".
pub fn greeting() -> (v: Vec<u8>)
    ensures
        v@ == greeting_text(),
{
    let v: Vec<u8> = vec![72u8, 105, 32];
    assert(v@ =~= greeting_text());
    v
}

/// The wave after the name.
pub fn wave() -> (v: Vec<u8>)
    ensures
        v@ == wave_text(),
{
    let v: Vec<u8> = vec![32u8, 0xF0, 0x9F, 0x91, 0x8B, 32, 10, 10];
    assert(v@ =~= wave_text());
    v
}

/// The apology for a line that is too long.
pub fn apology() -> (v: Vec<u8>)
    ensures
        v@ == apology_text(),
{
    let v: Vec<u8> = vec![
        10u8, 83, 111, 114, 114, 121, 44, 32, 116, 104, 97, 116, 39, 115,
        32, 97, 32, 98, 105, 116, 32, 108, 111, 110, 103, 32, 102, 111, 114,
        32, 109, 101, 32, 0xF0, 0x9F, 0x98, 0xAD, 10, 10,
    ];
    assert(v@ =~= apology_text());
    v
}

/// Whether `event` answers the request that the dialogue made at `stage`: a
/// line, a long line or a failure after a read; completion or a failure after
/// a write or a flush; nothing after the end.
pub open spec fn expects(stage: Stage, event: Event, line_len: nat) -> bool {
    match stage {
        Stage::Finished => false,
        Stage::Read => match event {
            Event::Line(n) => n <= line_len,
            Event::TooLong => true,
            Event::Failed => true,
            Event::Done => false,
        },
        _ => event is Done || event is Failed,
    }
}

/// The dialogue's transition: at `stage`, with `name` the name being greeted,
/// the driver reports `event` about its last request, with `line` the line
/// buffer. Gives the next stage, the name, and the next request.
///
/// Any failure ends the dialogue with `Error`. A written prompt is flushed,
/// then a line is read. An empty line (the input ended) is answered with a
/// newline, after which the dialogue ends well. A line of `n` bytes is
/// answered with "Hi ", its first `n - 1` bytes (the name, without the
/// delimiter) and a wave; a line too long for the buffer with an apology; and
/// after either the prompt comes again.
pub open spec fn dialogue(stage: Stage, name: Seq<u8>, event: Event, line: Seq<u8>) -> (
    Stage,
    Seq<u8>,
    Request,
) {
    if event is Failed {
        (Stage::Finished, name, Request::Finish(Err(Error)))
    } else {
        match stage {
            Stage::Prompt => (Stage::Flush, name, Request::Flush),
            Stage::Flush => (Stage::Read, name, Request::ReadLine),
            Stage::Read => match event {
                Event::Line(n) => if n == 0 {
                    (Stage::Farewell, name, Request::Write(farewell_text()))
                } else {
                    (Stage::Greet, line.subrange(0, n - 1), Request::Write(greeting_text()))
                },
                _ => (Stage::Apologize, name, Request::Write(apology_text())),
            },
            Stage::Farewell => (Stage::Finished, name, Request::Finish(Ok(()))),
            Stage::Greet => (Stage::Name, name, Request::Write(name)),
            Stage::Name => (Stage::Wave, name, Request::Write(wave_text())),
            Stage::Wave => (Stage::Prompt, name, Request::Write(prompt_text())),
            Stage::Apologize => (Stage::Prompt, name, Request::Write(prompt_text())),
            Stage::Finished => (Stage::Finished, name, Request::Finish(Ok(()))),
        }
    }
}

/// The greeting dialogue, run over a serial line: it asks for a name, reads a
/// line, greets the name and asks again, until the input ends.
pub struct Greeter {
    stage: Stage,
    name: Vec<u8>,
}

impl Greeter {
    /// Where the dialogue stands.
    pub closed spec fn stage(&self) -> Stage {
        self.stage
    }

    /// The name being greeted.
    pub closed spec fn name(&self) -> Seq<u8> {
        self.name@
    }

    /// Starts the dialogue, whose first request is to write the prompt.
    pub fn new() -> (r: (Greeter, Action))
        ensures
            r.0.stage() == Stage::Prompt,
            r.0.name() == Seq::<u8>::empty(),
            r.1@ == Request::Write(prompt_text()),
    {
        (Greeter { stage: Stage::Prompt, name: Vec::new() }, Action::Write(prompt()))
    }

    /// Where the dialogue stands.
    pub fn current_stage(&self) -> (s: Stage)
        ensures
            s == self.stage(),
    {
        self.stage
    }

    /// Takes the driver's report `event` about the last request, with `line`
    /// the line buffer, and gives the next request.
    pub fn step(&mut self, event: Event, line: &[u8]) -> (a: Action)
        requires
            expects(old(self).stage(), event, line@.len()),
        ensures
            (final(self).stage(), final(self).name(), a@) == dialogue(
                old(self).stage(),
                old(self).name(),
                event,
                line@,
            ),
    {
        if let Event::Failed = event {
            self.stage = Stage::Finished;
            return Action::Finish(Err(Error));
        }
        match self.stage {
            Stage::Prompt => {
                self.stage = Stage::Flush;
                Action::Flush
            },
            Stage::Flush => {
                self.stage = Stage::Read;
                Action::ReadLine
            },
            Stage::Read => match event {
                Event::Line(n) => {
                    if n == 0 {
                        self.stage = Stage::Farewell;
                        Action::Write(farewell())
                    } else {
                        self.name = vstd::slice::slice_to_vec(
                            vstd::slice::slice_subrange(line, 0, n - 1),
                        );
                        self.stage = Stage::Greet;
                        Action::Write(greeting())
                    }
                },
                _ => {
                    self.stage = Stage::Apologize;
                    Action::Write(apology())
                },
            },
            Stage::Farewell => {
                self.stage = Stage::Finished;
                Action::Finish(Ok(()))
            },
            Stage::Greet => {
                self.stage = Stage::Name;
                Action::Write(self.name.clone())
            },
            Stage::Name => {
                self.stage = Stage::Wave;
                Action::Write(wave())
            },
            Stage::Wave => {
                self.stage = Stage::Prompt;
                Action::Write(prompt())
            },
            Stage::Apologize => {
                self.stage = Stage::Prompt;
                Action::Write(prompt())
            },
            Stage::Finished => Action::Finish(Ok(())),
        }
    }
}

/// Law: each round of the dialogue asks first. From the written prompt, the
/// dialogue flushes the output and then reads a line.
pub proof fn lemma_round_starts_with_prompt(name: Seq<u8>, line: Seq<u8>)
    ensures
        dialogue(Stage::Prompt, name, Event::Done, line) == (Stage::Flush, name, Request::Flush),
        dialogue(Stage::Flush, name, Event::Done, line) == (Stage::Read, name, Request::ReadLine),
{
}

/// Law: a line of `n > 0` bytes is answered with "Hi ", the line without its
/// last byte (the delimiter), and a wave, in that order, after which the
/// prompt comes again.
pub proof fn lemma_name_is_greeted(name: Seq<u8>, line: Seq<u8>, n: usize)
    requires
        0 < n <= line.len(),
    ensures
        ({
            let (s1, name1, r1) = dialogue(Stage::Read, name, Event::Line(n), line);
            let (s2, name2, r2) = dialogue(s1, name1, Event::Done, line);
            let (s3, name3, r3) = dialogue(s2, name2, Event::Done, line);
            let (s4, name4, r4) = dialogue(s3, name3, Event::Done, line);
            &&& r1 == Request::Write(greeting_text())
            &&& r2 == Request::Write(line.subrange(0, n - 1))
            &&& r3 == Request::Write(wave_text())
            &&& r4 == Request::Write(prompt_text())
            &&& s4 == Stage::Prompt
        }),
{
}

/// Law: when the input ends (an empty line), the dialogue writes a newline
/// and then ends well.
pub proof fn lemma_end_of_input_ends_well(name: Seq<u8>, line: Seq<u8>)
    ensures
        ({
            let (s1, name1, r1) = dialogue(Stage::Read, name, Event::Line(0), line);
            let (s2, name2, r2) = dialogue(s1, name1, Event::Done, line);
            &&& r1 == Request::Write(farewell_text())
            &&& s2 == Stage::Finished
            &&& r2 == Request::Finish(Ok(()))
        }),
{
}

/// Law: a line too long for the buffer is answered with an apology, after
/// which the prompt comes again.
pub proof fn lemma_long_line_is_refused(name: Seq<u8>, line: Seq<u8>)
    ensures
        ({
            let (s1, name1, r1) = dialogue(Stage::Read, name, Event::TooLong, line);
            let (s2, name2, r2) = dialogue(s1, name1, Event::Done, line);
            &&& r1 == Request::Write(apology_text())
            &&& s2 == Stage::Prompt
            &&& r2 == Request::Write(prompt_text())
        }),
{
}

/// Law: whatever the dialogue was doing, a failed request ends it with
/// `Error`, and it asks for nothing more.
pub proof fn lemma_failure_ends_with_error(stage: Stage, name: Seq<u8>, line: Seq<u8>)
    ensures
        dialogue(stage, name, Event::Failed, line) == (Stage::Finished, name, Request::Finish(
            Err(Error),
        )),
        !expects(Stage::Finished, Event::Failed, line.len()),
{
}

} // verus!
