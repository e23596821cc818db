use hello_serial::app::{
    apology, farewell, greeting, prompt, wave, Action, Error, Event, Greeter, Stage, DELIMITER,
    LINE_CAPACITY,
};

const PROMPT: &[u8] = "\nHello, what's your name?\n> ".as_bytes();
const WAVE: &[u8] = " 👋 \n\n".as_bytes();
const SORRY: &[u8] = "\nSorry, that's a bit long for me 😭\n\n".as_bytes();

/// Replays a dialogue: `lines` are the outcomes of the reads; every write and
/// flush succeeds. Gives everything written and the final result.
fn replay(lines: Vec<Result<Vec<u8>, ()>>) -> (Vec<u8>, Result<(), Error>) {
    let mut lines = lines.into_iter();
    let mut out = Vec::new();
    let mut buffer = [0u8; LINE_CAPACITY];
    let (mut greeter, mut action) = Greeter::new();
    loop {
        action = match action {
            Action::Write(bytes) => {
                out.extend_from_slice(&bytes);
                greeter.step(Event::Done, &buffer)
            }
            Action::Flush => greeter.step(Event::Done, &buffer),
            Action::ReadLine => match lines.next().expect("no more input") {
                Ok(line) => {
                    buffer[..line.len()].copy_from_slice(&line);
                    greeter.step(Event::Line(line.len()), &buffer)
                }
                Err(()) => greeter.step(Event::TooLong, &buffer),
            },
            Action::Finish(result) => return (out, result),
        }
    }
}

#[test]
fn texts_are_the_dialogue_messages() {
    assert_eq!(prompt(), PROMPT.to_vec());
    assert_eq!(farewell(), b"\n".to_vec());
    assert_eq!(greeting(), b"Hi ".to_vec());
    assert_eq!(wave(), WAVE.to_vec());
    assert_eq!(apology(), SORRY.to_vec());
    assert_eq!(DELIMITER, b'\r');
}

#[test]
fn a_name_is_greeted_and_the_prompt_comes_again() {
    let (out, result) = replay(vec![Ok(b"Ferris\r".to_vec()), Ok(Vec::new())]);
    let mut expected = PROMPT.to_vec();
    expected.extend_from_slice(b"Hi Ferris");
    expected.extend_from_slice(WAVE);
    expected.extend_from_slice(PROMPT);
    expected.extend_from_slice(b"\n");
    assert_eq!(out, expected);
    assert_eq!(result, Ok(()));
}

#[test]
fn end_of_input_ends_the_dialogue_well() {
    let (out, result) = replay(vec![Ok(Vec::new())]);
    let mut expected = PROMPT.to_vec();
    expected.extend_from_slice(b"\n");
    assert_eq!(out, expected);
    assert_eq!(result, Ok(()));
}

#[test]
fn a_long_line_gets_an_apology() {
    let (out, result) = replay(vec![Err(()), Ok(b"Al\r".to_vec()), Ok(Vec::new())]);
    let mut expected = PROMPT.to_vec();
    expected.extend_from_slice(SORRY);
    expected.extend_from_slice(PROMPT);
    expected.extend_from_slice(b"Hi Al");
    expected.extend_from_slice(WAVE);
    expected.extend_from_slice(PROMPT);
    expected.extend_from_slice(b"\n");
    assert_eq!(out, expected);
    assert_eq!(result, Ok(()));
}

#[test]
fn a_single_delimiter_greets_an_empty_name() {
    let (out, _) = replay(vec![Ok(b"\r".to_vec()), Ok(Vec::new())]);
    let mut expected = PROMPT.to_vec();
    expected.extend_from_slice(b"Hi ");
    expected.extend_from_slice(WAVE);
    assert_eq!(&out[..expected.len()], &expected[..]);
}

#[test]
fn a_failure_ends_the_dialogue_with_error() {
    let buffer = [0u8; LINE_CAPACITY];
    let (mut greeter, _) = Greeter::new();
    assert_eq!(greeter.step(Event::Failed, &buffer), Action::Finish(Err(Error)));
    assert_eq!(greeter.current_stage(), Stage::Finished);

    let (mut greeter, _) = Greeter::new();
    assert_eq!(greeter.step(Event::Done, &buffer), Action::Flush);
    assert_eq!(greeter.step(Event::Done, &buffer), Action::ReadLine);
    assert_eq!(greeter.current_stage(), Stage::Read);
    assert_eq!(greeter.step(Event::Failed, &buffer), Action::Finish(Err(Error)));
}

#[test]
fn the_stages_of_one_round() {
    let mut buffer = [0u8; LINE_CAPACITY];
    buffer[..4].copy_from_slice(b"Ann\r");
    let (mut greeter, first) = Greeter::new();
    assert_eq!(first, Action::Write(PROMPT.to_vec()));
    assert_eq!(greeter.current_stage(), Stage::Prompt);
    assert_eq!(greeter.step(Event::Done, &buffer), Action::Flush);
    assert_eq!(greeter.step(Event::Done, &buffer), Action::ReadLine);
    assert_eq!(greeter.step(Event::Line(4), &buffer), Action::Write(b"Hi ".to_vec()));
    assert_eq!(greeter.current_stage(), Stage::Greet);
    assert_eq!(greeter.step(Event::Done, &buffer), Action::Write(b"Ann".to_vec()));
    assert_eq!(greeter.current_stage(), Stage::Name);
    assert_eq!(greeter.step(Event::Done, &buffer), Action::Write(WAVE.to_vec()));
    assert_eq!(greeter.current_stage(), Stage::Wave);
    assert_eq!(greeter.step(Event::Done, &buffer), Action::Write(PROMPT.to_vec()));
    assert_eq!(greeter.current_stage(), Stage::Prompt);
}
