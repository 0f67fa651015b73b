use crate::body::{after_body, body_bytes, BodyBuilder};
use crate::command::Command;
use crate::error::{Fault, LatchError, ReadError};
use crate::fields::{values_of, Fields};
use crate::frame::{command_from, command_of_line, Frame, MAX_COMMAND_SIZE};
use crate::header::{
    fields_from, fields_step, lemma_fields_from_step, FieldsReader, Header, MAX_HEADER_SIZE,
};
use crate::latch::Gate;
use crate::line::{line_too_long_text, read_line};
use crate::source::ByteSource;
use crate::text::{parse_unsigned, unsigned_of};
use vstd::prelude::*;

verus! {

/// The name of the field that declares the length of the body.
pub open spec fn content_length_name() -> Seq<char> {
    "content-length"@
}

/// The text of the error for a declared length that is no number.
pub open spec fn bad_length_text() -> Seq<char> {
    "invalid content length"@
}

/// The length that the fields declare for the body: the first value of the
/// field `content-length`, read as an unsigned decimal number, if the
/// fields hold that name with a value.
pub open spec fn content_length_of(fields: Fields) -> Result<Option<u64>, Fault> {
    match values_of(fields, content_length_name()) {
        None => Ok(None),
        Some(values) => if values.len() == 0 {
            Ok(None)
        } else {
            match unsigned_of(values[0]) {
                Some(n) => Ok(Some(n)),
                None => Err(Fault::Format(bad_length_text())),
            }
        },
    }
}

/// The head of a frame as plain values: its command, its fields, the
/// length that they declare for the body, and the bytes behind the head.
pub struct Head {
    pub command: Command,
    pub fields: Fields,
    pub length: Option<u64>,
    pub rest: Seq<u8>,
}

/// What reading the rest of the head of a frame from `upstream` gives once
/// its command is read: the header block, then the length that the block
/// declares. The block has `budget` bytes left for its lines and has
/// gathered the fields `so_far`.
pub open spec fn head_behind_command(
    command: Command,
    upstream: Seq<u8>,
    budget: nat,
    so_far: Fields,
) -> Result<Head, Fault> {
    match fields_from(upstream, budget, so_far) {
        Err(fault) => Err(fault),
        Ok((fields, rest)) => match content_length_of(fields) {
            Err(fault) => Err(fault),
            Ok(length) => Ok(Head { command, fields, length, rest }),
        },
    }
}

/// What reading the head of a frame from `upstream` gives: the command
/// line, then the header block, then the length that the block declares.
pub open spec fn head_from(upstream: Seq<u8>) -> Result<Head, Fault> {
    match command_from(upstream) {
        Err(fault) => Err(fault),
        Ok((command, behind_command)) => head_behind_command(
            command,
            behind_command,
            MAX_HEADER_SIZE as nat,
            Fields::empty(),
        ),
    }
}

/// What a command line of the given length says: nothing if it is longer
/// than a command line may be.
pub open spec fn command_step(line: Seq<u8>) -> Result<Command, Fault> {
    if line.len() > MAX_COMMAND_SIZE {
        Err(Fault::Format(line_too_long_text()))
    } else {
        command_of_line(line)
    }
}

/// The length that a header table declares for the body.
pub fn content_length(header: &Header) -> (length: Result<Option<u64>, ReadError>)
    ensures
        match length {
            Ok(n) => content_length_of(header@) matches Ok(declared) && declared == n,
            Err(e) => content_length_of(header@) matches Err(fault) && fault == e@,
        },
{
    match header.get("content-length") {
        None => Ok(None),
        Some(values) => {
            if values.len() == 0 {
                return Ok(None);
            }
            match parse_unsigned(values[0].as_str()) {
                Some(n) => Ok(Some(n)),
                None => Err(ReadError::format("invalid content length")),
            }
        },
    }
}

/// Gathers the head of a frame from its lines, one at a time: first the
/// command line, then the lines of the header block.
#[derive(Debug)]
pub struct HeadReader {
    command: Option<Command>,
    fields: FieldsReader,
}

impl HeadReader {
    /// The command, once its line was taken.
    pub closed spec fn command(&self) -> Option<Command> {
        self.command
    }

    /// The fields that were gathered.
    pub closed spec fn fields(&self) -> Fields {
        self.fields.fields()
    }

    /// The number of bytes that the lines of the header block to come may
    /// have together.
    pub closed spec fn budget(&self) -> u64 {
        self.fields.budget()
    }

    /// What the rest of the head gives when it is read from `upstream`.
    pub open spec fn rest_from(&self, upstream: Seq<u8>) -> Result<Head, Fault> {
        match self.command() {
            None => head_from(upstream),
            Some(command) => head_behind_command(
                command,
                upstream,
                self.budget() as nat,
                self.fields(),
            ),
        }
    }

    /// A reader at the start of a frame.
    pub fn new() -> (reader: HeadReader)
        ensures
            reader.command() is None,
            reader.fields() == Fields::empty(),
            reader.budget() == MAX_HEADER_SIZE,
    {
        HeadReader { command: None, fields: FieldsReader::new() }
    }

    /// The largest number of bytes that the next line may have.
    pub fn line_budget(&self) -> (budget: u64)
        ensures
            budget == if self.command() is None {
                MAX_COMMAND_SIZE
            } else {
                self.budget()
            },
    {
        match self.command {
            None => MAX_COMMAND_SIZE,
            Some(_) => self.fields.line_budget(),
        }
    }

    /// Takes the next line of the frame, or an empty line where the source
    /// is at its end. Returns the head once the header block is complete:
    /// the command, the header table and the length that it declares for
    /// the body; until then nothing.
    pub fn accept(&mut self, line: &Vec<u8>) -> (head: Result<
        Option<(Command, Header, Option<u64>)>,
        ReadError,
    >)
        ensures
            match old(self).command() {
                None => match command_step(line@) {
                    Err(fault) => head matches Err(e) && e@ == fault,
                    Ok(command) => head matches Ok(None) && final(self).command() == Some(command)
                        && final(self).fields() == old(self).fields() && final(self).budget()
                        == old(self).budget() && line@.len() > 0,
                },
                Some(command) => match fields_step(
                    old(self).fields(),
                    old(self).budget() as nat,
                    line@,
                ) {
                    Err(fault) => head matches Err(e) && e@ == fault,
                    Ok(Some((fields, left))) => head matches Ok(None) && final(self).command()
                        == Some(command) && final(self).fields() == fields && final(self).budget()
                        == left && line@.len() > 0,
                    Ok(None) => match content_length_of(old(self).fields()) {
                        Err(fault) => head matches Err(e) && e@ == fault,
                        Ok(length) => head matches Ok(Some(read)) && read.0 == command && read.1@
                            == old(self).fields() && read.1.wf() && read.2 == length,
                    },
                },
            },
    {
        match self.command {
            None => {
                if line.len() as u64 > MAX_COMMAND_SIZE {
                    return Err(ReadError::format("line exceeds size limit"));
                }
                match Frame::parse_command(line) {
                    Ok(command) => {
                        self.command = Some(command);
                        Ok(None)
                    },
                    Err(e) => Err(e),
                }
            },
            Some(command) => {
                match self.fields.accept(line) {
                    Err(e) => Err(e),
                    Ok(false) => Ok(None),
                    Ok(true) => {
                        let mut fields = FieldsReader::new();
                        core::mem::swap(&mut self.fields, &mut fields);
                        let header = fields.finish();
                        match content_length(&header) {
                            Ok(length) => Ok(Some((command, header, length))),
                            Err(e) => Err(e),
                        }
                    },
                }
            },
        }
    }
}

/// Reads the head of a frame from the source: the command line, then the
/// header block, then the length that the block declares for the body.
pub fn read_head(source: &mut ByteSource) -> (head: Result<
    (Command, Header, Option<u64>),
    ReadError,
>)
    ensures
        match head {
            Ok((command, header, length)) => header.wf() && (head_from(
                old(source).remaining(),
            ) matches Ok(read) && read.command == command && read.fields == header@ && read.length
                == length && read.rest == final(source).remaining()),
            Err(e) => head_from(old(source).remaining()) matches Err(fault) && fault == e@,
        },
{
    let mut reader = HeadReader::new();
    let ghost whole = head_from(source.remaining());
    loop
        invariant
            whole == head_from(old(source).remaining()),
            reader.rest_from(source.remaining()) == whole,
            reader.command() is None ==> reader.fields() == Fields::empty() && reader.budget()
                == MAX_HEADER_SIZE,
        decreases source.remaining().len(),
    {
        proof {
            lemma_fields_from_step(source.remaining(), reader.budget() as nat, reader.fields());
        }
        let mut line: Vec<u8> = Vec::new();
        match read_line(source, reader.line_budget(), &mut line) {
            Ok(n) => {},
            Err(e) => {
                return Err(e);
            },
        }
        match reader.accept(&line) {
            Ok(Some(head)) => {
                return Ok(head);
            },
            Ok(None) => {},
            Err(e) => {
                return Err(e);
            },
        }
    }
}

/// Reads the frames of one source, one after the other. While the body of
/// a frame is outstanding, the frame holds the source, and no other frame
/// can be read.
pub struct FrameReader {
    source: Option<ByteSource>,
    gate: Gate,
    owed: Ghost<Seq<u8>>,
}

impl FrameReader {
    #[verifier::type_invariant]
    spec fn inv(&self) -> bool {
        self.source is None ==> self.gate.is_latched()
    }

    /// Whether a frame that was read is still outstanding.
    pub closed spec fn is_busy(&self) -> bool {
        self.gate.is_latched()
    }

    /// The identity of the reader, which the guard of every frame that it
    /// reads knows.
    pub closed spec fn id(&self) -> int {
        self.gate.id()
    }

    /// What the frame that is outstanding owes the reader: the bytes that
    /// will be left of the source when the frame is closed.
    pub closed spec fn owed(&self) -> Seq<u8> {
        self.owed@
    }

    /// The bytes of the source that no frame has taken yet. While a frame
    /// is outstanding, they are with the frame.
    pub closed spec fn remaining(&self) -> Seq<u8> {
        match self.source {
            Some(source) => source.remaining(),
            None => Seq::empty(),
        }
    }

    /// A reader of the frames of the source.
    pub fn new(source: ByteSource) -> (reader: FrameReader)
        ensures
            !reader.is_busy(),
            reader.remaining() == source.remaining(),
    {
        FrameReader { source: Some(source), gate: Gate::new(), owed: Ghost(Seq::empty()) }
    }

    /// Whether a frame that was read is still outstanding.
    pub fn busy(&self) -> (busy: bool)
        ensures
            busy == self.is_busy(),
    {
        self.gate.latched()
    }

    /// Reads the next frame. Fails with `Busy`, and changes nothing, while
    /// the frame read before is outstanding. Else the head of the frame is
    /// read from the source, and the frame that is returned holds the
    /// source, and a guard of this reader, until it is handed to `close`.
    /// After any other error the reader is free, and how far its source
    /// was read is left open.
    pub fn read_frame(&mut self) -> (frame: Result<Frame, ReadError>)
        ensures
            final(self).id() == old(self).id(),
            old(self).is_busy() ==> {
                &&& frame matches Err(e) && e@ == Fault::Busy
                &&& final(self).is_busy()
                &&& final(self).remaining() == old(self).remaining()
                &&& final(self).owed() == old(self).owed()
            },
            !old(self).is_busy() ==> match frame {
                Ok(f) => {
                    &&& head_from(old(self).remaining()) matches Ok(head)
                    &&& f.command == head.command
                    &&& f.header@ == head.fields
                    &&& f.header.wf()
                    &&& f.body.upstream() == head.rest
                    &&& f.body.length_left() == head.length
                    &&& !f.body.is_closed()
                    &&& f.body.pending() == body_bytes(head.rest, head.length)
                    &&& f.body.after() == after_body(head.rest, head.length)
                    &&& f.guard matches Some(guard) && guard.gate() == final(self).id()
                    &&& final(self).is_busy()
                    &&& final(self).owed() == f.body.after()
                },
                Err(e) => {
                    &&& head_from(old(self).remaining()) matches Err(fault)
                    &&& fault == e@
                    &&& !final(self).is_busy()
                },
            },
    {
        proof {
            use_type_invariant(&*self);
        }
        let guard = match self.gate.try_latch() {
            Ok(guard) => guard,
            Err(e) => {
                return Err(ReadError::Busy);
            },
        };
        let mut taken: Option<ByteSource> = None;
        core::mem::swap(&mut self.source, &mut taken);
        let mut source = match taken {
            Some(source) => source,
            None => ByteSource::empty(),
        };
        match read_head(&mut source) {
            Ok((command, header, length)) => {
                let builder = BodyBuilder::new(source);
                let builder = match length {
                    Some(n) => builder.content_length(n),
                    None => builder,
                };
                let body = builder.build();
                self.owed = Ghost(body.after());
                Ok(Frame::with_header(command, header, body, guard))
            },
            Err(e) => {
                self.source = Some(source);
                self.gate.release(guard);
                Err(e)
            },
        }
    }

    /// Closes the frame that is outstanding: passes over what is left of
    /// its body and over the null byte that ends it, takes the source back
    /// and frees the latch. The frame must be the one that this reader
    /// read: its guard is one of this reader, and its body leaves behind
    /// what the reader is owed. Fails, and changes nothing, if no frame is
    /// outstanding or the frame holds no guard.
    pub fn close(&mut self, frame: Frame) -> (closed: Result<(), LatchError>)
        requires
            old(self).is_busy() ==> (frame.guard matches Some(guard) ==> guard.gate() == old(
                self,
            ).id() && frame.body.after() == old(self).owed()),
        ensures
            final(self).id() == old(self).id(),
            closed is Ok <==> old(self).is_busy() && frame.is_guarded(),
            closed is Ok ==> !final(self).is_busy() && final(self).remaining() == old(
                self,
            ).owed(),
            closed is Err ==> {
                &&& final(self).is_busy() == old(self).is_busy()
                &&& final(self).remaining() == old(self).remaining()
                &&& final(self).owed() == old(self).owed()
            },
    {
        proof {
            use_type_invariant(&*self);
        }
        if !self.gate.latched() {
            return Err(LatchError);
        }
        let (command, header, body, guard) = frame.into_parts();
        let guard = match guard {
            Some(guard) => guard,
            None => {
                return Err(LatchError);
            },
        };
        let mut body = body;
        body.close();
        self.source = Some(body.into_source());
        self.gate.release(guard);
        Ok(())
    }

    /// Gives up the reader and hands its source on, unless a frame holds
    /// it.
    pub fn into_source(self) -> (source: Option<ByteSource>)
        ensures
            source is Some ==> source->0.remaining() == self.remaining(),
            source is None ==> self.is_busy(),
    {
        proof {
            use_type_invariant(&self);
        }
        self.source
    }
}

} // verus!
