use stomp_codec::body::BodyBuilder;
use stomp_codec::command::Command;
use stomp_codec::escape::{decode, encode};
use stomp_codec::frame::Frame;
use stomp_codec::header::Header;
use stomp_codec::reader::FrameReader;
use stomp_codec::source::ByteSource;

struct Dice(u64);

impl Dice {
    fn roll(&mut self, sides: u64) -> u64 {
        self.0 = self.0.wrapping_mul(6364136223846793005).wrapping_add(1442695040888963407);
        (self.0 >> 33) % sides
    }

    fn text(&mut self, alphabet: &[char], longest: u64) -> String {
        let len = self.roll(longest + 1);
        (0..len).map(|_| alphabet[self.roll(alphabet.len() as u64) as usize]).collect()
    }
}

const ANY: [char; 12] = ['a', 'Z', ':', '\\', '\r', '\n', 'c', 'n', 'r', ' ', '\u{e9}', '\u{1F600}'];
const NAME: [char; 8] = ['a', 'b', 'z', '-', '0', ':', '\\', '_'];
const COMMANDS: [Command; 5] =
    [Command::Send, Command::Message, Command::Ack, Command::Error, Command::Stomp];

#[test]
fn sweep_decode_of_encode() {
    let mut dice = Dice(1);
    for _ in 0..2000 {
        let text = dice.text(&ANY, 12);
        let escaped = encode(&text);
        assert!(!escaped.contains(|c| c == ':' || c == '\r' || c == '\n'), "{:?}", text);
        assert_eq!(text, decode(&escaped), "{:?}", text);
    }
}

#[test]
fn sweep_encode_of_two_parts() {
    let mut dice = Dice(2);
    for _ in 0..2000 {
        let a = dice.text(&ANY, 6);
        let b = dice.text(&ANY, 6);
        assert_eq!(format!("{}{}", encode(&a), encode(&b)), encode(&format!("{}{}", a, b)));
    }
}

#[test]
fn sweep_header_round_trip() {
    let mut dice = Dice(3);
    for _ in 0..500 {
        let mut header = Header::new();
        for _ in 0..dice.roll(6) {
            let name = format!("k{}", dice.text(&NAME, 5));
            if header.get(&name).is_none() {
                let value = format!("v{}v", dice.text(&ANY, 8));
                header.add(&name, &value);
            }
        }
        let mut wire = Vec::new();
        header.write_to(&mut wire);
        wire.extend_from_slice(b"\nrest");
        let mut source = ByteSource::new(wire);
        assert_eq!(header, Header::read_from(&mut source).unwrap());
        assert_eq!(4, source.remaining_len());
    }
}

#[test]
fn sweep_frame_round_trip() {
    let mut dice = Dice(4);
    for _ in 0..200 {
        let mut frames = Vec::new();
        let mut wire = Vec::new();
        for _ in 0..dice.roll(5) {
            let command = COMMANDS[dice.roll(5) as usize];
            let with_length = dice.roll(2) == 0;
            let body: Vec<u8> = (0..dice.roll(20))
                .map(|_| if with_length { dice.roll(4) as u8 } else { 1 + dice.roll(255) as u8 })
                .collect();
            let mut header = Header::new();
            header.add("destination", &format!("/queue/{}/", dice.text(&ANY, 6)));
            if with_length {
                header.add("content-length", &body.len().to_string());
            }
            let source = ByteSource::new(body.clone());
            let mut frame =
                Frame::new(command, BodyBuilder::new(source).content_length(20).build());
            frame.header = header;
            let written = frame.write_to(&mut wire);
            assert!(written as usize > body.len());
            frames.push((command, frame.header, body));
        }
        let total = wire.len();
        wire.extend_from_slice(b"tail");
        let mut reader = FrameReader::new(ByteSource::new(wire));
        for (command, header, body) in frames {
            let mut frame = reader.read_frame().unwrap();
            assert_eq!(command, frame.command);
            assert_eq!(header, frame.header);
            if dice.roll(3) > 0 {
                let mut back = Vec::new();
                frame.body.read_to_end(&mut back);
                assert_eq!(body, back);
            }
            reader.close(frame).unwrap();
        }
        let mut rest = Vec::new();
        reader.into_source().unwrap().read_to_end(&mut rest);
        assert_eq!(b"tail".to_vec(), rest);
        assert!(total > 0 || rest.len() == 4);
    }
}
