use std::str;
use stomp_codec::error::ReadError;
use stomp_codec::header::{parse_field, Header};
use stomp_codec::source::ByteSource;

#[test]
fn frame_write_header() {
    let target = "Content-Length: 30\nContent-Type: application/json\n";

    let mut header = Header::new();
    header.add("Content-Type", "application/json");
    header.add("Content-Length", "30");

    let mut buffer: Vec<u8> = Vec::new();
    header.write_to(&mut buffer);
    let data = str::from_utf8(&buffer).unwrap();
    assert_eq!(target, data)
}

#[test]
fn frame_write_header_encode_colon() {
    let target = "Content-Length: 30\nContent-Type: vnd\\capplication/json\n";

    let mut header = Header::new();
    header.add("Content-Type", "vnd:application/json");
    header.add("Content-Length", "30");

    let mut buffer: Vec<u8> = Vec::new();
    header.write_to(&mut buffer);
    let data = str::from_utf8(&buffer).unwrap();
    assert_eq!(target, data)
}

#[test]
fn frame_read_header() {
    let input = b"Content-Type: application/json\nContent-Length: 30\nName: Joshua\n";
    let mut reader = ByteSource::new(input.to_vec());
    let header = Header::read_from(&mut reader).unwrap();

    let mut target = Header::new();
    target.add("content-type", "application/json");
    target.add("content-length", "30");
    target.add("name", "Joshua");
    assert_eq!(target, header);
}

#[test]
fn mod_read_header() {
    let input = b"Content-Type: application/json\r\nContent-Length: 30\r\nName: Joshua\r\n";
    let mut reader = ByteSource::new(input.to_vec());
    let header = Header::read_from(&mut reader).unwrap();

    let mut target = Header::new();
    target.push("content-type", "application/json".to_owned());
    target.push("content-length", "30".to_owned());
    target.push("name", "Joshua".to_owned());
    assert_eq!(target, header);
}

#[test]
fn mod_write_header() {
    let target = "Content-Length: 30\nContent-Type: application/json\n";

    let mut header = Header::new();
    header.push("Content-Type", "application/json".to_owned());
    header.push("Content-Length", "30".to_owned());

    let mut buffer: Vec<u8> = Vec::new();
    header.write_to(&mut buffer);
    let data = str::from_utf8(&buffer).unwrap();
    assert_eq!(target, data)
}

#[test]
fn mod_write_header_encode_colon() {
    let target = "Content-Length: 30\nContent-Type: vnd\\capplication/json\n";

    let mut header = Header::new();
    header.push("Content-Type", "vnd:application/json".to_owned());
    header.push("Content-Length", "30".to_owned());

    let mut buffer: Vec<u8> = Vec::new();
    header.write_to(&mut buffer);
    let data = str::from_utf8(&buffer).unwrap();
    assert_eq!(target, data)
}

fn written(header: &Header) -> String {
    let mut buffer: Vec<u8> = Vec::new();
    let n = header.write_to(&mut buffer);
    assert_eq!(buffer.len() as u64, n);
    String::from_utf8(buffer).unwrap()
}

fn read(input: &[u8]) -> Result<Header, ReadError> {
    Header::read_from(&mut ByteSource::new(input.to_vec()))
}

#[test]
fn header_values_of_one_name_share_a_line() {
    let mut header = Header::new();
    header.add("accept", "a");
    header.add("b", "x");
    header.add("accept", "b");
    header.add("accept", "c");
    assert_eq!(2, header.len());
    assert_eq!(Some(&vec!["a".to_owned(), "b".to_owned(), "c".to_owned()]), header.get("accept"));
    assert_eq!("accept: a,b,c\nb: x\n", written(&header));
}

#[test]
fn header_writes_names_in_ascending_order() {
    let mut header = Header::new();
    for name in ["zeta", "Zeta", "alpha", "a", "beta", "\u{e9}", "ab"] {
        header.add(name, "1");
    }
    assert_eq!(
        "Zeta: 1\na: 1\nab: 1\nalpha: 1\nbeta: 1\nzeta: 1\n\u{e9}: 1\n",
        written(&header)
    );
}

#[test]
fn header_write_returns_the_number_of_bytes() {
    let mut header = Header::new();
    let mut buffer = b"seen".to_vec();
    assert_eq!(0, header.write_to(&mut buffer));
    header.add("k\u{e9}y", "v");
    assert_eq!(8, header.write_to(&mut buffer));
    assert_eq!("seenk\u{e9}y: v\n".as_bytes(), &buffer[..]);
}

#[test]
fn header_set_replaces_and_remove_takes_out() {
    let mut header = Header::new();
    header.add("a", "1");
    header.add("a", "2");
    header.add("c", "3");
    header.set("a", vec!["9".to_owned()]);
    header.set("b", vec!["7".to_owned(), "8".to_owned()]);
    assert_eq!("a: 9\nb: 7,8\nc: 3\n", written(&header));
    header.remove("b");
    header.remove("missing");
    assert_eq!("a: 9\nc: 3\n", written(&header));
    assert_eq!(None, header.get("b"));
    header.remove("a");
    header.remove("c");
    assert_eq!(Header::new(), header);
    assert_eq!(0, header.len());
}

#[test]
fn header_fields_are_held_in_the_order_of_their_names() {
    let mut header = Header::new();
    header.add("b", "2");
    header.add("a", "1");
    header.add("b", "3");
    assert_eq!(2, header.len());
    let (name, values) = header.field_at(0);
    assert_eq!("a", name);
    assert_eq!(&vec!["1".to_owned()], values);
    let (name, values) = header.field_at(1);
    assert_eq!("b", name);
    assert_eq!(&vec!["2".to_owned(), "3".to_owned()], values);
    assert_eq!(Header::new(), Header::default());
}

#[test]
fn header_takes_empty_names_and_empty_lists_as_they_come() {
    let mut header = Header::new();
    header.add("", "x");
    header.set("a", Vec::new());
    header.push("b", String::new());
    assert_eq!(": x\na: \nb: \n", written(&header));
    assert_eq!(Some(&Vec::new()), header.get("a"));
    assert!(read(written(&header).as_bytes()).is_err());
}

#[test]
fn header_lookup_is_by_exact_name() {
    let mut header = Header::new();
    header.add("content-length", "17");
    assert!(header.get("content-length").is_some());
    assert!(header.get("Content-Length").is_none());
    assert!(header.get("content-lengt").is_none());
}

#[test]
fn header_read_lowercases_names_and_keeps_values() {
    let header = read(b"CONTENT-Type: Application/JSON\n").unwrap();
    assert_eq!(Some(&vec!["Application/JSON".to_owned()]), header.get("content-type"));
    let header = read("\u{c9}t\u{e9}: x\n".as_bytes()).unwrap();
    assert!(header.get("\u{e9}t\u{e9}").is_some());
}

#[test]
fn header_read_stops_at_the_first_empty_line() {
    let mut source = ByteSource::new(b"a: 1\nb: 2\n\nbody\0".to_vec());
    let header = Header::read_from(&mut source).unwrap();
    assert_eq!("a: 1\nb: 2\n", written(&header));
    let mut rest = Vec::new();
    source.read_to_end(&mut rest);
    assert_eq!(b"body\0".to_vec(), rest);

    let mut source = ByteSource::new(b"a: 1\r\n\r\nbody".to_vec());
    let header = Header::read_from(&mut source).unwrap();
    assert_eq!("a: 1\n", written(&header));
    assert_eq!(4, source.remaining_len());

    let mut source = ByteSource::new(b"\nname: x\n".to_vec());
    assert_eq!(Header::new(), Header::read_from(&mut source).unwrap());
    assert_eq!(8, source.remaining_len());
    assert_eq!(Header::new(), read(b"").unwrap());
}

#[test]
fn header_read_accepts_a_last_line_without_line_feed() {
    let header = read(b"a: 1\nb: 2").unwrap();
    assert_eq!("a: 1\nb: 2\n", written(&header));
}

#[test]
fn header_read_gives_the_same_for_both_line_endings() {
    let with_cr = read(b"Content-Type: text/plain\r\nx:  y z \r\nx:2\r\n\r\n").unwrap();
    let without = read(b"Content-Type: text/plain\nx:  y z \nx:2\n\n").unwrap();
    assert_eq!(with_cr, without);
    assert_eq!("content-type: text/plain\nx: y z ,2\n", written(&without));
}

#[test]
fn header_read_gives_the_same_for_both_line_endings_up_to_a_fault() {
    let with_cr = read(b"a: 1\r\nno colon\r\nb: 2\r\n").unwrap_err();
    let without = read(b"a: 1\nno colon\nb: 2\n").unwrap_err();
    assert_eq!(with_cr.message(), without.message());
    let with_cr = read(b"a: 1\r\r\n\r\nb: 2\r\n").unwrap();
    let without = read(b"a: 1\r\n\nb: 2\n").unwrap();
    assert_eq!(with_cr, without);
    assert_eq!(1, without.len());
}

#[test]
fn header_read_appends_repeated_names() {
    let header = read(b"a: 1\nb: 2\nA: 3\n").unwrap();
    assert_eq!(Some(&vec!["1".to_owned(), "3".to_owned()]), header.get("a"));
}

#[test]
fn header_read_splits_at_the_first_colon() {
    let header = read(b"a: b:c\n").unwrap();
    assert_eq!(Some(&vec!["b:c".to_owned()]), header.get("a"));
    let header = read(b"a\\cb: c\\c\\\\d\n").unwrap();
    assert_eq!(Some(&vec!["c:\\d".to_owned()]), header.get("a:b"));
}

#[test]
fn header_read_trims_name_and_value() {
    let (name, value) = parse_field(&b"  Na Me \t:\t va lue \r\n".to_vec()).unwrap().unwrap();
    assert_eq!("na me", name);
    assert_eq!("va lue ", value);
    let (name, value) = parse_field(&b"k:v\\r\\n\n".to_vec()).unwrap().unwrap();
    assert_eq!("k", name);
    assert_eq!("v", value);
    let (_, value) = parse_field(&b"k:\n".to_vec()).unwrap().unwrap();
    assert_eq!("", value);
    assert!(parse_field(&b"\r\n".to_vec()).unwrap().is_none());
}

#[test]
fn header_line_without_colon_is_a_format_error() {
    let error = read(b"a: 1\nno colon here\n").unwrap_err();
    assert!(matches!(error, ReadError::Format(_)));
    assert_eq!("invalid header field format", error.message());
}

#[test]
fn header_line_with_empty_name_is_a_format_error() {
    for input in [&b": value\n"[..], &b"   : value\n"[..], &b"\\: value\n"[..]] {
        let error = read(input).unwrap_err();
        assert!(matches!(error, ReadError::Format(_)));
        assert_eq!("empty header field name", error.message());
    }
}

#[test]
fn header_line_that_is_not_utf8_is_an_encoding_error() {
    let error = read(b"a: \xff\n").unwrap_err();
    assert!(matches!(error, ReadError::Encoding(_)));
    assert!(error.message().contains("utf-8"));
    let error = read(b"a: \xc3\n").unwrap_err();
    assert!(matches!(error, ReadError::Encoding(_)));
}

#[test]
fn header_block_over_its_budget_is_a_format_error() {
    let mut input = Vec::new();
    for _ in 0..1000 {
        input.extend_from_slice(b"k: ");
        input.extend_from_slice(&[b'v'; 1020]);
        input.push(b'\n');
    }
    assert_eq!(1024000, input.len());
    let header = read(&input).unwrap();
    assert_eq!(1000, header.get("k").unwrap().len());

    input.extend_from_slice(b"\nbody");
    let error = read(&input).unwrap_err();
    assert!(matches!(error, ReadError::Format(_)));
    assert_eq!("line exceeds size limit", error.message());

    let long_line = vec![b'x'; 1024001];
    assert!(matches!(read(&long_line).unwrap_err(), ReadError::Format(_)));
}

#[test]
fn header_round_trip_of_escaped_value() {
    let mut header = Header::new();
    header.add("Content-Type", "vnd:application/json");
    let line = written(&header);
    assert_eq!("Content-Type: vnd\\capplication/json\n", line);
    let back = read(line.as_bytes()).unwrap();
    assert_eq!(Some(&vec!["vnd:application/json".to_owned()]), back.get("content-type"));
    assert_eq!(1, back.len());
}

#[test]
fn header_read_back_folds_what_reading_trims() {
    let mut header = Header::new();
    header.add("Key", " v\r\n");
    header.add("list", "a");
    header.add("list", "b");
    let wire = written(&header);
    assert_eq!("Key:  v\\r\\n\nlist: a,b\n", wire);
    let back = read(wire.as_bytes()).unwrap();
    assert_eq!(Some(&vec!["v".to_owned()]), back.get("key"));
    assert_eq!(Some(&vec!["a,b".to_owned()]), back.get("list"));
}

#[test]
fn header_round_trip_of_a_table() {
    let mut header = Header::new();
    header.add("destination", "/queue/a:b");
    header.add("content-length", "0");
    header.add("x-path", "c:\\dir\\file");
    header.add("receipt", "");
    let back = read(written(&header).as_bytes()).unwrap();
    assert_eq!(header, back);
}
