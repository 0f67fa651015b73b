use std::str;
use stomp_codec::body::{Body, BodyBuilder};
use stomp_codec::command::Command;
use stomp_codec::error::{LatchError, ReadError};
use stomp_codec::frame::Frame;
use stomp_codec::header::Header;
use stomp_codec::latch::Gate;
use stomp_codec::reader::{content_length, read_head, FrameReader};
use stomp_codec::source::ByteSource;

#[test]
fn frame_write_frame() {
    let target = "CONNECT\nContent-Length: 30\nContent-Type: application/json\n\n\0";

    let mut frame = Frame::new(Command::Connect, BodyBuilder::new(ByteSource::empty()).build());
    frame.header.add("Content-Type", "application/json");
    frame.header.add("Content-Length", "30");

    let mut buffer: Vec<u8> = Vec::new();
    frame.write_to(&mut buffer);
    let data = str::from_utf8(&buffer).unwrap();
    assert_eq!(target, data)
}

#[test]
fn frame_write_frame_with_body() {
    let target =
        "CONNECT\nContent-Length: 30\nContent-Type: application/json\n\n{\"name\":\"Joshua\"}\0";

    let source = ByteSource::new(b"{\"name\":\"Joshua\"}".to_vec());
    let mut frame = Frame::new(Command::Connect, BodyBuilder::new(source).build());
    frame.header.add("Content-Type", "application/json");
    frame.header.add("Content-Length", "30");

    let mut buffer: Vec<u8> = Vec::new();
    frame.write_to(&mut buffer);
    let data = str::from_utf8(&buffer).unwrap();
    assert_eq!(target, data)
}

#[test]
fn mod_write_frame() {
    let target = "CONNECT\nContent-Length: 30\nContent-Type: application/json\n\n\0";
    let input = ByteSource::empty();
    let mut body = BodyBuilder::new(input);
    body = body.content_length(30);

    let mut gate = Gate::new();
    let guard = gate.latch();
    let mut frame = Frame::with_header(Command::Connect, Header::new(), body.build(), guard);
    frame.header.push("Content-Type", "application/json".to_owned());
    frame.header.push("Content-Length", "30".to_owned());

    let mut buffer: Vec<u8> = Vec::new();
    frame.write_to(&mut buffer);
    let data = str::from_utf8(&buffer).unwrap();
    assert_eq!(target, data)
}

#[test]
fn mod_write_frame_with_body() {
    let target =
        "CONNECT\nContent-Length: 30\nContent-Type: application/json\n\n{\"name\":\"Joshua\"}\0";
    let input = ByteSource::new(b"{\"name\":\"Joshua\"}".to_vec());
    let mut body = BodyBuilder::new(input);
    body = body.content_length(30);

    let mut gate = Gate::new();
    let guard = gate.latch();
    let mut frame = Frame::with_header(Command::Connect, Header::new(), body.build(), guard);
    frame.header.push("Content-Type", "application/json".to_owned());
    frame.header.push("Content-Length", "30".to_owned());

    let mut buffer: Vec<u8> = Vec::new();
    frame.write_to(&mut buffer);
    let data = str::from_utf8(&buffer).unwrap();
    assert_eq!(target, data)
}

fn body_of(bytes: &[u8], length: Option<u64>) -> Body {
    let builder = BodyBuilder::new(ByteSource::new(bytes.to_vec()));
    match length {
        Some(n) => builder.content_length(n).build(),
        None => builder.build(),
    }
}

fn drained(body: &mut Body) -> Vec<u8> {
    let mut buffer = Vec::new();
    let n = body.read_to_end(&mut buffer);
    assert_eq!(buffer.len(), n);
    buffer
}

fn rest_of(reader: FrameReader) -> Vec<u8> {
    let mut rest = Vec::new();
    reader.into_source().unwrap().read_to_end(&mut rest);
    rest
}

fn failure(input: &[u8]) -> ReadError {
    let mut reader = FrameReader::new(ByteSource::new(input.to_vec()));
    let error = reader.read_frame().err().unwrap();
    assert!(!reader.busy());
    error
}

#[test]
fn read_frame_with_body_with_content_length() {
    let input = b"CONNECT\nContent-Length: 17\nContent-Type: application/json\n\n{\"name\":\"Joshua\"}\0";
    let mut reader = FrameReader::new(ByteSource::new(input.to_vec()));
    let mut frame = reader.read_frame().unwrap();

    let mut target_header = Header::new();
    target_header.add("content-type", "application/json");
    target_header.add("content-length", "17");

    let target_body = b"{\"name\":\"Joshua\"}".to_vec();
    let buffer = drained(&mut frame.body);

    assert_eq!(Command::Connect, frame.command);
    assert_eq!(target_header, frame.header);
    assert_eq!(target_body, buffer);
    assert_eq!(17, buffer.len());

    reader.close(frame).unwrap();
    assert!(rest_of(reader).is_empty());
}

#[test]
fn read_frame_with_body_without_content_length() {
    let input = b"CONNECT\nContent-Type: application/json\n\n{\"name\":\"Joshua\"}\0(should not read this)";
    let mut reader = FrameReader::new(ByteSource::new(input.to_vec()));
    let mut frame = reader.read_frame().unwrap();

    let mut target_header = Header::new();
    target_header.add("content-type", "application/json");

    let target_body = b"{\"name\":\"Joshua\"}".to_vec();
    let buffer = drained(&mut frame.body);

    assert_eq!(Command::Connect, frame.command);
    assert_eq!(target_header, frame.header);
    assert_eq!(target_body, buffer);

    reader.close(frame).unwrap();
    assert_eq!(b"(should not read this)".to_vec(), rest_of(reader));
}

#[test]
fn write_frame_returns_the_number_of_bytes() {
    let mut frame = Frame::new(Command::Send, body_of(b"hello", None));
    frame.header.add("destination", "/queue/a");
    let mut buffer = b"--".to_vec();
    let n = frame.write_to(&mut buffer);
    assert_eq!(b"--SEND\ndestination: /queue/a\n\nhello\0".to_vec(), buffer);
    assert_eq!(34, n);
    let mut again = Vec::new();
    assert_eq!(29, frame.write_to(&mut again));
    assert_eq!(b"SEND\ndestination: /queue/a\n\n\0".to_vec(), again);
}

#[test]
fn write_frame_does_not_cut_the_body_to_the_declared_length() {
    let mut frame = Frame::new(Command::Send, body_of(b"hello", None));
    frame.header.add("content-length", "2");
    let mut buffer = Vec::new();
    frame.write_to(&mut buffer);
    assert_eq!(b"SEND\ncontent-length: 2\n\nhello\0".to_vec(), buffer);
}

#[test]
fn body_with_length_yields_that_many_bytes() {
    let mut body = body_of(b"abcdef\0rest", Some(4));
    let mut buf = [b'-'; 3];
    assert_eq!(3, body.read(&mut buf));
    assert_eq!(b"abc", &buf);
    let mut buf = [b'-'; 3];
    assert_eq!(1, body.read(&mut buf));
    assert_eq!(b"d--", &buf);
    assert_eq!(0, body.read(&mut buf));
    assert_eq!(0, body.read(&mut buf));
    body.close();
    let mut rest = Vec::new();
    body.into_source().read_to_end(&mut rest);
    assert_eq!(b"rest".to_vec(), rest);
}

#[test]
fn body_with_length_leaves_the_null_until_it_is_closed() {
    let mut body = body_of(b"abcd\0rest", Some(4));
    assert_eq!(b"abcd".to_vec(), drained(&mut body));
    let mut rest = Vec::new();
    body.into_source().read_to_end(&mut rest);
    assert_eq!(b"\0rest".to_vec(), rest);
}

#[test]
fn body_with_length_keeps_null_bytes() {
    let mut body = body_of(b"a\0b\0\0tail", Some(4));
    assert_eq!(b"a\0b\0".to_vec(), drained(&mut body));
    body.close();
    let mut rest = Vec::new();
    body.into_source().read_to_end(&mut rest);
    assert_eq!(b"tail".to_vec(), rest);
}

#[test]
fn body_without_length_ends_at_the_first_null() {
    let mut body = body_of(b"a\0b\0\0tail", None);
    assert_eq!(b"a".to_vec(), drained(&mut body));
    assert_eq!(Vec::<u8>::new(), drained(&mut body));
    body.close();
    let mut rest = Vec::new();
    body.into_source().read_to_end(&mut rest);
    assert_eq!(b"b\0\0tail".to_vec(), rest);
}

#[test]
fn body_without_length_reads_in_pieces() {
    let mut body = body_of(b"abcde\0next", None);
    let mut buf = [0u8; 2];
    assert_eq!(2, body.read(&mut buf));
    assert_eq!(b"ab", &buf);
    assert_eq!(2, body.read(&mut buf));
    assert_eq!(b"cd", &buf);
    assert_eq!(1, body.read(&mut buf));
    assert_eq!(b"ed", &buf);
    assert_eq!(0, body.read(&mut buf));
    let mut rest = Vec::new();
    body.into_source().read_to_end(&mut rest);
    assert_eq!(b"next".to_vec(), rest);
}

#[test]
fn body_shorter_than_declared_ends_with_the_source() {
    let mut body = body_of(b"abc", Some(10));
    assert_eq!(b"abc".to_vec(), drained(&mut body));
    body.close();
    assert!(body.into_source().is_empty());
}

#[test]
fn closing_an_unread_body_stands_behind_the_frame() {
    for length in [None, Some(3), Some(0), Some(5)] {
        let mut body = body_of(b"abc\0NEXT", length);
        body.close();
        body.close();
        assert_eq!(Vec::<u8>::new(), drained(&mut body));
        let mut rest = Vec::new();
        body.into_source().read_to_end(&mut rest);
        let expected: &[u8] = if length == Some(5) { b"" } else { b"NEXT" };
        assert_eq!(expected.to_vec(), rest);
    }
}

#[test]
fn empty_body_with_length_zero_round_trips() {
    let mut frame = Frame::new(Command::Send, body_of(b"", Some(0)));
    frame.header.add("content-length", "0");
    let mut wire = Vec::new();
    frame.write_to(&mut wire);
    assert_eq!(b"SEND\ncontent-length: 0\n\n\0".to_vec(), wire);
    wire.extend_from_slice(b"ACK\n\n\0");

    let mut reader = FrameReader::new(ByteSource::new(wire));
    let mut back = reader.read_frame().unwrap();
    assert_eq!(Command::Send, back.command);
    assert_eq!(frame.header, back.header);
    assert_eq!(Vec::<u8>::new(), drained(&mut back.body));
    reader.close(back).unwrap();
    let next = reader.read_frame().unwrap();
    assert_eq!(Command::Ack, next.command);
}

#[test]
fn written_frames_are_read_back_in_order() {
    let frames: Vec<(Command, Vec<(&str, &str)>, &[u8], bool)> = vec![
        (Command::Connect, vec![("login", "me"), ("passcode", "a:b\\c")], b"", false),
        (Command::Send, vec![("destination", "/queue/x")], b"bin\0ary\0", true),
        (Command::Message, vec![], b"plain text\nwith lines", false),
        (Command::Disconnect, vec![("receipt", "77")], b"", true),
    ];
    let mut wire = Vec::new();
    for (command, fields, body, with_length) in &frames {
        let mut frame = Frame::new(*command, body_of(body, Some(body.len() as u64)));
        for (name, value) in fields {
            frame.header.add(name, value);
        }
        if *with_length {
            frame.header.add("content-length", &body.len().to_string());
        }
        frame.write_to(&mut wire);
    }

    let mut reader = FrameReader::new(ByteSource::new(wire));
    for (command, fields, body, with_length) in &frames {
        let mut frame = reader.read_frame().unwrap();
        assert_eq!(*command, frame.command);
        let mut header = Header::new();
        for (name, value) in fields {
            header.add(name, value);
        }
        if *with_length {
            header.add("content-length", &body.len().to_string());
        }
        assert_eq!(header, frame.header);
        assert_eq!(body.to_vec(), drained(&mut frame.body));
        reader.close(frame).unwrap();
    }
    assert!(rest_of(reader).is_empty());
}

#[test]
fn dropping_a_frame_undrained_stands_at_the_next_command() {
    let wire = b"SEND\ncontent-length:5\n\nhello\0MESSAGE\n\nworld\0ACK\n\n\0".to_vec();
    let mut reader = FrameReader::new(ByteSource::new(wire));
    let first = reader.read_frame().unwrap();
    reader.close(first).unwrap();
    let mut second = reader.read_frame().unwrap();
    assert_eq!(Command::Message, second.command);
    let mut buf = [0u8; 2];
    assert_eq!(2, second.body.read(&mut buf));
    reader.close(second).unwrap();
    let third = reader.read_frame().unwrap();
    assert_eq!(Command::Ack, third.command);
    reader.close(third).unwrap();
    assert!(rest_of(reader).is_empty());
}

#[test]
fn reader_is_busy_while_a_frame_is_outstanding() {
    let wire = b"SEND\n\na\0SEND\n\nb\0".to_vec();
    let mut reader = FrameReader::new(ByteSource::new(wire));
    assert!(!reader.busy());
    let mut frame = reader.read_frame().unwrap();
    assert!(reader.busy());
    let error = reader.read_frame().err().unwrap();
    assert!(matches!(error, ReadError::Busy));
    assert_eq!("latch already locked", error.message());
    assert!(reader.busy());
    assert_eq!(b"a".to_vec(), drained(&mut frame.body));
    assert!(matches!(reader.read_frame(), Err(ReadError::Busy)));
    reader.close(frame).unwrap();
    assert!(!reader.busy());
    let mut frame = reader.read_frame().unwrap();
    assert_eq!(b"b".to_vec(), drained(&mut frame.body));
}

#[test]
fn reader_closes_only_a_frame_that_is_outstanding() {
    let mut reader = FrameReader::new(ByteSource::new(b"SEND\n\na\0".to_vec()));
    let stray = Frame::new(Command::Ack, body_of(b"", None));
    assert!(reader.close(stray).is_err());
    assert!(!reader.busy());
    let frame = reader.read_frame().unwrap();
    let stray = Frame::new(Command::Ack, body_of(b"zzz", None));
    let refused: Result<(), LatchError> = reader.close(stray);
    assert!(refused.is_err());
    assert!(reader.busy());
    assert!(reader.close(frame).is_ok());
    assert!(rest_of(reader).is_empty());
}

#[test]
fn busy_reader_does_not_hand_out_its_source() {
    let mut reader = FrameReader::new(ByteSource::new(b"SEND\n\na\0".to_vec()));
    let _frame = reader.read_frame().unwrap();
    assert!(reader.into_source().is_none());
}

#[test]
fn command_line_tolerates_carriage_return_and_white_space() {
    let mut reader = FrameReader::new(ByteSource::new(b"  SEND \r\na:b\r\n\r\nbody\0".to_vec()));
    let mut frame = reader.read_frame().unwrap();
    assert_eq!(Command::Send, frame.command);
    assert_eq!(Some(&vec!["b".to_owned()]), frame.header.get("a"));
    assert_eq!(b"body".to_vec(), drained(&mut frame.body));
}

#[test]
fn empty_command_is_a_format_error() {
    for input in [&b""[..], &b"\n"[..], &b"   \r\n"[..]] {
        let error = failure(input);
        assert!(matches!(error, ReadError::Format(_)));
        assert_eq!("empty command", error.message());
    }
}

#[test]
fn unknown_command_is_a_format_error() {
    for input in [&b"HELLO\n\n\0"[..], &b"connect\n\n\0"[..], &b"CONNECT X\n"[..], &b"\0SEND\n"[..]] {
        let error = failure(input);
        assert!(matches!(error, ReadError::Format(_)));
        assert_eq!("invalid command", error.message());
    }
}

#[test]
fn command_line_that_is_not_utf8_is_an_encoding_error() {
    assert!(matches!(failure(b"SEND\xff\n"), ReadError::Encoding(_)));
}

#[test]
fn command_line_over_its_limit_is_a_format_error() {
    let mut input = vec![b' '; 1019];
    input.extend_from_slice(b"SEND\n\n\0");
    let mut reader = FrameReader::new(ByteSource::new(input.clone()));
    assert_eq!(Command::Send, reader.read_frame().unwrap().command);

    input.insert(0, b' ');
    let error = failure(&input);
    assert!(matches!(error, ReadError::Format(_)));
    assert_eq!("line exceeds size limit", error.message());
}

#[test]
fn content_length_that_is_no_number_is_a_format_error() {
    for value in ["", "x", "-1", "1 ", "1.0", "18446744073709551616", "+", "0x10"] {
        let input = format!("SEND\ncontent-length:{}\n\nbody\0", value);
        let error = failure(input.as_bytes());
        assert!(matches!(error, ReadError::Format(_)), "{}", value);
        assert_eq!("invalid content length", error.message());
    }
}

#[test]
fn content_length_is_read_as_decimal() {
    for (value, expected) in
        [("0", 0u64), ("17", 17), ("+17", 17), ("007", 7), ("18446744073709551615", u64::MAX)]
    {
        let mut header = Header::new();
        header.add("content-length", value);
        header.add("content-length", "ignored");
        assert_eq!(Some(expected), content_length(&header).unwrap());
    }
    assert_eq!(None, content_length(&Header::new()).unwrap());
    let mut header = Header::new();
    header.set("content-length", Vec::new());
    assert_eq!(None, content_length(&header).unwrap());
}

#[test]
fn content_length_is_found_whatever_its_case_on_the_wire() {
    let mut source = ByteSource::new(b"SEND\nCONTENT-LENGTH: 3\n\nabcdef\0".to_vec());
    let (command, header, length) = read_head(&mut source).unwrap();
    assert_eq!(Command::Send, command);
    assert_eq!(1, header.len());
    assert_eq!(Some(3), length);
    assert_eq!(7, source.remaining_len());
}

#[test]
fn read_command_takes_one_line_off_the_source() {
    let mut source = ByteSource::new(b"SUBSCRIBE\nid: 0\n\n\0".to_vec());
    assert_eq!(Command::Subscribe, Frame::read_command(&mut source).unwrap());
    assert_eq!(8, source.remaining_len());
    let error = Frame::read_command(&mut source).unwrap_err();
    assert_eq!("invalid command", error.message());
    let mut source = ByteSource::new(b"UNSUBSCRIBE".to_vec());
    assert_eq!(Command::Unsubscribe, Frame::read_command(&mut source).unwrap());
    assert_eq!("empty command", Frame::read_command(&mut source).unwrap_err().message());
}

#[test]
fn failed_read_frees_the_reader() {
    let mut reader = FrameReader::new(ByteSource::new(b"NOPE\nSEND\n\n\0".to_vec()));
    assert!(reader.read_frame().is_err());
    assert!(!reader.busy());
    let frame = reader.read_frame().unwrap();
    assert_eq!(Command::Send, frame.command);
}
