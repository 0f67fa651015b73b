use std::str;
use stomp_codec::io::{BiReader, DelimitedReader, LimitedReader};
use stomp_codec::latch::{Gate, Guard};
use stomp_codec::line::read_line;
use stomp_codec::source::ByteSource;

#[test]
fn frame_delimited_reader_middle() {
    let input = b"this is; a test";
    let mut reader = ByteSource::new(input.to_vec());

    let mut dreader = DelimitedReader::new(b';');
    let mut buffer: Vec<u8> = Vec::new();
    dreader.read_to_end(&mut reader, &mut buffer);
    let output = str::from_utf8(&buffer).unwrap();
    let target = "this is";
    assert_eq!(target, output)
}

#[test]
fn frame_delimited_reader_none() {
    let input = b"this is a test";
    let mut reader = ByteSource::new(input.to_vec());

    let mut dreader = DelimitedReader::new(b';');
    let mut buffer: Vec<u8> = Vec::new();
    dreader.read_to_end(&mut reader, &mut buffer);
    let output = str::from_utf8(&buffer).unwrap();
    let target = "this is a test";
    assert_eq!(target, output)
}

#[test]
fn frame_delimited_reader_beginning() {
    let input = b";this is a test";
    let mut reader = ByteSource::new(input.to_vec());

    let mut dreader = DelimitedReader::new(b';');
    let mut buffer: Vec<u8> = Vec::new();
    dreader.read_to_end(&mut reader, &mut buffer);
    let output = str::from_utf8(&buffer).unwrap();
    let target = "";
    assert_eq!(target, output)
}

#[test]
fn io_delimited_reader_middle() {
    let input = b"this is; a test";
    let mut source = ByteSource::new(input.to_vec());

    let mut dreader = DelimitedReader::inclusive(b';');
    let mut buffer: Vec<u8> = Vec::new();
    dreader.read_to_end(&mut source, &mut buffer);
    let output = str::from_utf8(&buffer).unwrap();
    let target = "this is;";
    assert_eq!(target, output)
}

#[test]
fn io_delimited_reader_none() {
    let input = b"this is a test";
    let mut source = ByteSource::new(input.to_vec());

    let mut dreader = DelimitedReader::inclusive(b';');
    let mut buffer: Vec<u8> = Vec::new();
    dreader.read_to_end(&mut source, &mut buffer);
    let output = str::from_utf8(&buffer).unwrap();
    let target = "this is a test";
    assert_eq!(target, output)
}

#[test]
fn io_delimited_reader_beginning() {
    let input = b";this is a test";
    let mut source = ByteSource::new(input.to_vec());

    let mut dreader = DelimitedReader::inclusive(b';');
    let mut buffer: Vec<u8> = Vec::new();
    dreader.read_to_end(&mut source, &mut buffer);
    let output = str::from_utf8(&buffer).unwrap();
    let target = ";";
    assert_eq!(target, output)
}

#[test]
fn bi_reader_read() {
    let input = b"this is a test; that already ended";
    let mut source = ByteSource::new(input.to_vec());

    let limited_reader = LimitedReader::new(3);
    let delimited_reader = DelimitedReader::inclusive(b';');
    let mut bi_reader = BiReader::new(limited_reader, delimited_reader);

    let mut buffer: Vec<u8> = Vec::new();
    bi_reader.read_to_end(&mut source, &mut buffer);
    let output = str::from_utf8(&buffer).unwrap();
    let target = "this is a test;";
    assert_eq!(target, output)
}

#[test]
fn gate_proper() {
    let mut gate = Gate::new();
    let guard = gate.latch();
    gate.release(guard);
    gate.latch();
}

#[test]
fn gate_refuses_a_second_holder() {
    let mut gate = Gate::new();
    assert!(!gate.latched());
    let guard = gate.try_latch().unwrap();
    assert!(gate.latched());
    let second = gate.try_latch();
    assert!(second.is_err());
    assert_eq!("latch already locked", second.err().unwrap().message());
    assert!(gate.latched());
    gate.release(guard);
    assert!(!gate.latched());
    assert!(gate.try_latch().is_ok());
}

#[test]
fn guard_takes_a_free_flag_only() {
    let mut flag = false;
    assert!(Guard::new(&mut flag).is_some());
    assert!(flag);
    assert!(Guard::new(&mut flag).is_none());
    assert!(flag);
}

#[test]
fn source_reads_front_to_back() {
    let mut source = ByteSource::new(b"abcdef".to_vec());
    assert_eq!(6, source.remaining_len());
    assert_eq!(Some(b'a'), source.read_byte());
    let mut buf = [0u8; 3];
    assert_eq!(3, source.read(&mut buf));
    assert_eq!(b"bcd", &buf);
    assert_eq!(1, source.skip(1));
    let mut buf = [b'-'; 3];
    assert_eq!(1, source.read(&mut buf));
    assert_eq!(b"f--", &buf);
    assert!(source.is_empty());
    assert_eq!(None, source.read_byte());
    assert_eq!(0, source.read(&mut buf));
    assert_eq!(0, source.skip(5));
}

#[test]
fn source_read_to_end_appends_the_rest() {
    let mut source = ByteSource::new(b"abcdef".to_vec());
    source.skip(4);
    let mut out = b"x".to_vec();
    assert_eq!(2, source.read_to_end(&mut out));
    assert_eq!(b"xef".to_vec(), out);
    assert!(ByteSource::empty().is_empty());
}

#[test]
fn delimited_reader_takes_the_delimiter_but_does_not_deliver_it() {
    let mut source = ByteSource::new(b"ab;cd".to_vec());
    let mut reader = DelimitedReader::new(b';');
    let mut buf = [b'-'; 8];
    assert_eq!(2, reader.read(&mut source, &mut buf));
    assert_eq!(b"ab------", &buf);
    assert!(reader.finished());
    assert_eq!(0, reader.read(&mut source, &mut buf));
    assert_eq!(0, reader.read(&mut source, &mut buf));
    let mut rest = Vec::new();
    source.read_to_end(&mut rest);
    assert_eq!(b"cd".to_vec(), rest);
}

#[test]
fn delimited_reader_does_not_read_past_a_full_buffer() {
    let mut source = ByteSource::new(b"ab;cd".to_vec());
    let mut reader = DelimitedReader::new(b';');
    let mut buf = [0u8; 2];
    assert_eq!(2, reader.read(&mut source, &mut buf));
    assert_eq!(b"ab", &buf);
    assert!(!reader.finished());
    assert_eq!(3, source.remaining_len());
    assert_eq!(0, reader.read(&mut source, &mut buf));
    assert!(reader.finished());
    assert_eq!(2, source.remaining_len());
}

#[test]
fn delimited_reader_stops_at_the_end_of_the_source() {
    let mut source = ByteSource::new(b"ab".to_vec());
    let mut reader = DelimitedReader::new(0);
    let mut buf = [0u8; 4];
    assert_eq!(2, reader.read(&mut source, &mut buf));
    assert_eq!(0, reader.read(&mut source, &mut buf));
    assert!(!reader.finished());
    let mut empty: [u8; 0] = [];
    assert_eq!(0, reader.read(&mut source, &mut empty));
}

#[test]
fn delimited_reader_drain_passes_over_the_delimiter() {
    let mut source = ByteSource::new(b"abc\0def\0".to_vec());
    let mut reader = DelimitedReader::new(0);
    assert_eq!(4, reader.drain(&mut source));
    assert_eq!(4, source.remaining_len());
    assert_eq!(0, reader.drain(&mut source));
    assert_eq!(4, source.remaining_len());
}

#[test]
fn limited_reader_yields_its_limit_and_no_more() {
    let mut source = ByteSource::new(b"abcdefgh".to_vec());
    let mut reader = LimitedReader::new(5);
    let mut buf = [b'-'; 3];
    assert_eq!(3, reader.read(&mut source, &mut buf));
    assert_eq!(b"abc", &buf);
    assert_eq!(2, reader.remaining_limit());
    let mut buf = [b'-'; 3];
    assert_eq!(2, reader.read(&mut source, &mut buf));
    assert_eq!(b"de-", &buf);
    assert_eq!(0, reader.read(&mut source, &mut buf));
    assert_eq!(3, source.remaining_len());
}

#[test]
fn limited_reader_stops_at_the_end_of_the_source() {
    let mut source = ByteSource::new(b"ab".to_vec());
    let mut reader = LimitedReader::new(5);
    let mut out = Vec::new();
    assert_eq!(2, reader.read_to_end(&mut source, &mut out));
    assert_eq!(b"ab".to_vec(), out);
    assert_eq!(3, reader.remaining_limit());
    let mut source = ByteSource::new(b"abcdef".to_vec());
    assert_eq!(3, reader.drain(&mut source));
    assert_eq!(0, reader.remaining_limit());
    assert_eq!(3, source.remaining_len());
}

#[test]
fn bi_reader_reads_the_second_only_when_the_first_yields_nothing() {
    let mut source = ByteSource::new(b"abcd;ef".to_vec());
    let mut reader = BiReader::new(LimitedReader::new(2), DelimitedReader::new(b';'));
    let mut buf = [b'-'; 4];
    assert_eq!(2, reader.read(&mut source, &mut buf));
    assert_eq!(b"ab--", &buf);
    assert_eq!(2, reader.read(&mut source, &mut buf));
    assert_eq!(b"cd--", &buf);
    assert_eq!(0, reader.read(&mut source, &mut buf));
    assert_eq!(2, source.remaining_len());
}

#[test]
fn read_line_reads_through_the_line_feed() {
    let mut source = ByteSource::new(b"one\ntwo\r\nthree".to_vec());
    let mut line = Vec::new();
    assert_eq!(4, read_line(&mut source, 1024, &mut line).unwrap());
    assert_eq!(b"one\n".to_vec(), line);
    assert_eq!(5, read_line(&mut source, 1024, &mut line).unwrap());
    assert_eq!(b"one\ntwo\r\n".to_vec(), line);
    let mut line = Vec::new();
    assert_eq!(5, read_line(&mut source, 1024, &mut line).unwrap());
    assert_eq!(b"three".to_vec(), line);
    assert_eq!(0, read_line(&mut source, 1024, &mut line).unwrap());
    assert_eq!(0, read_line(&mut source, 0, &mut line).unwrap());
}

#[test]
fn read_line_keeps_to_its_budget() {
    let mut source = ByteSource::new(b"abc\ndef".to_vec());
    let mut line = Vec::new();
    assert_eq!(4, read_line(&mut source, 4, &mut line).unwrap());
    assert_eq!(3, read_line(&mut source, 3, &mut line).unwrap());

    let mut source = ByteSource::new(b"abc\ndef".to_vec());
    let mut line = Vec::new();
    let error = read_line(&mut source, 3, &mut line).unwrap_err();
    assert_eq!("line exceeds size limit", error.message());

    let mut source = ByteSource::new(b"x".to_vec());
    assert!(read_line(&mut source, 0, &mut line).is_err());
}
