use crate::body::Body;
use crate::command::{command_of, invalid_command_text, Command};
use crate::error::{Fault, ReadError};
use crate::fields::Fields;
use crate::header::{header_bytes, Header};
use crate::io::{EOL, NULL};
use crate::latch::Guard;
use crate::line::{line_length, line_too_long_text, read_line};
use crate::source::ByteSource;
use crate::text::{chars_of, drop_whitespace, skip_whitespace, trimmed};
use vstd::prelude::*;
use vstd::utf8::{decode_utf8, encode_utf8, encode_utf8_decode_utf8, valid_utf8};

verus! {

/// The largest number of bytes that a command line may have, its line feed
/// included.
pub const MAX_COMMAND_SIZE: u64 = 1024;

/// The text of the error for a command line that holds no word.
pub open spec fn empty_command_text() -> Seq<char> {
    "empty command"@
}

/// The bytes of a frame: the spelling of the command and a line feed, the
/// lines of the fields, an empty line, the body, and a null byte.
pub open spec fn frame_bytes(command: Command, fields: Fields, body: Seq<u8>) -> Seq<u8> {
    encode_utf8(command.spelling()) + seq![EOL] + header_bytes(fields) + seq![EOL] + body
        + seq![NULL]
}

/// What a command line says. The line must not be empty, must be UTF-8
/// and, without the white space around it, the exact spelling of a
/// command.
pub open spec fn command_of_line(line: Seq<u8>) -> Result<Command, Fault> {
    let word = trimmed(decode_utf8(line));
    if line.len() == 0 {
        Err(Fault::Format(empty_command_text()))
    } else if !valid_utf8(line) {
        Err(Fault::Encoding)
    } else if word.len() == 0 {
        Err(Fault::Format(empty_command_text()))
    } else {
        match command_of(word) {
            Some(command) => Ok(command),
            None => Err(Fault::Format(invalid_command_text())),
        }
    }
}

/// What reading a command line from `upstream` gives: the command that the
/// first line says, which may have 1024 bytes at most, and what is left of
/// `upstream` behind the line.
pub open spec fn command_from(upstream: Seq<u8>) -> Result<(Command, Seq<u8>), Fault> {
    let n = line_length(upstream) as int;
    if n > MAX_COMMAND_SIZE {
        Err(Fault::Format(line_too_long_text()))
    } else {
        match command_of_line(upstream.take(n)) {
            Ok(command) => Ok((command, upstream.skip(n))),
            Err(fault) => Err(fault),
        }
    }
}

/// The unit of the wire: a command, a header table and a body.
pub struct Frame {
    pub command: Command,
    pub header: Header,
    pub body: Body,
    /// The guard of the latch of the reader that the frame was read by.
    pub guard: Option<Guard>,
}

impl Frame {
    /// Whether the frame holds the guard of a frame reader's latch.
    pub open spec fn is_guarded(&self) -> bool {
        self.guard is Some
    }

    /// A frame with an empty header table, to be written.
    pub fn new(command: Command, body: Body) -> (frame: Frame)
        ensures
            frame.command == command,
            frame.header@ == Fields::empty(),
            frame.header.wf(),
            frame.body == body,
            !frame.is_guarded(),
    {
        Frame { command, header: Header::new(), body, guard: None }
    }

    /// A frame that holds the guard of the latch of the reader that it was
    /// read by.
    pub fn with_header(command: Command, header: Header, body: Body, guard: Guard) -> (frame: Frame)
        ensures
            frame.command == command,
            frame.header == header,
            frame.body == body,
            frame.guard == Some(guard),
    {
        Frame { command, header, body, guard: Some(guard) }
    }

    /// Takes the frame apart: into its command, header table and body, and
    /// the guard that it holds, if any.
    pub fn into_parts(self) -> (parts: (Command, Header, Body, Option<Guard>))
        ensures
            parts.0 == self.command,
            parts.1 == self.header,
            parts.2 == self.body,
            parts.3 == self.guard,
    {
        (self.command, self.header, self.body, self.guard)
    }

    /// Writes the frame to the end of `w`: the command line, the header
    /// lines, an empty line, what the body yields until its end, and a null
    /// byte. Returns the number of bytes written.
    pub fn write_to(&mut self, w: &mut Vec<u8>) -> (written: u64)
        ensures
            final(w)@ == old(w)@ + frame_bytes(
                old(self).command,
                old(self).header@,
                old(self).body.pending(),
            ),
            written == frame_bytes(
                old(self).command,
                old(self).header@,
                old(self).body.pending(),
            ).len(),
            final(self).command == old(self).command,
            final(self).header == old(self).header,
            final(self).body.pending() == Seq::<u8>::empty(),
            final(self).body.after() == old(self).body.after(),
            final(self).body.upstream() == old(self).body.upstream().skip(
                old(self).body.read_to_end_takes() as int,
            ),
            final(self).guard == old(self).guard,
    {
        let start = w.len();
        w.extend_from_slice(self.command.as_str().as_bytes());
        w.push(EOL);
        self.header.write_to(w);
        w.push(EOL);
        self.body.read_to_end(w);
        w.push(NULL);
        assert(w@ == old(w)@ + frame_bytes(
            old(self).command,
            old(self).header@,
            old(self).body.pending(),
        ));
        (w.len() - start) as u64
    }

    /// Reads what a command line says.
    pub fn parse_command(line: &Vec<u8>) -> (command: Result<Command, ReadError>)
        ensures
            match command {
                Ok(c) => command_of_line(line@) matches Ok(said) && said == c,
                Err(e) => command_of_line(line@) matches Err(fault) && fault == e@,
            },
    {
        if line.len() == 0 {
            return Err(ReadError::format("empty command"));
        }
        let text = match core::str::from_utf8(line.as_slice()) {
            Ok(text) => text,
            Err(e) => {
                return Err(ReadError::Encoding(e));
            },
        };
        proof {
            encode_utf8_decode_utf8(text@);
        }
        let chars = chars_of(text);
        assert(chars@.subrange(0, chars@.len() as int) == chars@);
        let start = skip_whitespace(&chars, 0, chars.len());
        let end = drop_whitespace(&chars, start, chars.len());
        if start == end {
            return Err(ReadError::format("empty command"));
        }
        match Command::from_chars(&chars, start, end) {
            Some(c) => Ok(c),
            None => Err(ReadError::format("invalid command")),
        }
    }

    /// Reads the command line of a frame from the source.
    pub fn read_command(source: &mut ByteSource) -> (command: Result<Command, ReadError>)
        ensures
            match command {
                Ok(c) => command_from(old(source).remaining()) matches Ok(read) && read == (
                    c,
                    final(source).remaining(),
                ),
                Err(e) => command_from(old(source).remaining()) matches Err(fault) && fault == e@,
            },
    {
        let mut line: Vec<u8> = Vec::new();
        match read_line(source, MAX_COMMAND_SIZE, &mut line) {
            Ok(n) => {
                assert(line@ == old(source).remaining().take(n as int));
                Frame::parse_command(&line)
            },
            Err(e) => Err(e),
        }
    }
}

} // verus!
