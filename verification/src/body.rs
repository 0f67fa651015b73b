use crate::io::{
    delimited_taken, delimited_taken_all, delimiter_reached, DelimitedReader, LimitedReader, NULL,
};
use crate::scan::{least, lemma_offset_of, lemma_offset_of_is, lemma_offset_of_skip, offset_of};
use crate::source::ByteSource;
use vstd::prelude::*;

verus! {

/// The bytes of a body that begins at the start of `upstream`: as many as
/// `length` says where a length is given, though no more than there are;
/// else those before the first null byte.
pub open spec fn body_bytes(upstream: Seq<u8>, length: Option<u64>) -> Seq<u8> {
    match length {
        Some(n) => upstream.take(least(n as nat, upstream.len()) as int),
        None => upstream.take(offset_of(upstream, NULL) as int),
    }
}

/// What is left of `upstream` behind a body that begins at its start and
/// behind the null byte that ends the frame: behind the first null byte
/// that is not among the bytes of the body.
pub open spec fn after_body(upstream: Seq<u8>, length: Option<u64>) -> Seq<u8> {
    let rest = upstream.skip(body_bytes(upstream, length).len() as int);
    rest.skip(delimited_taken_all(rest, NULL) as int)
}

/// A body of a declared length has exactly that many bytes where the
/// source holds as many; a body without one holds no null byte and stands
/// before a null byte or the end of the source.
pub proof fn lemma_body_bytes_end(upstream: Seq<u8>, length: Option<u64>)
    ensures
        match length {
            Some(n) => n <= upstream.len() ==> body_bytes(upstream, length).len() == n,
            None => {
                let body = body_bytes(upstream, length);
                &&& body.len() <= upstream.len()
                &&& forall|i: int| 0 <= i < body.len() ==> body[i] != NULL
                &&& body.len() < upstream.len() ==> upstream[body.len() as int] == NULL
            },
        },
{
    lemma_offset_of(upstream, NULL);
}

/// A body that was written with the null byte behind it, and whose length
/// is declared, is read back exactly, whatever bytes it holds, and what is
/// left behind the frame is what followed the null byte.
pub proof fn lemma_body_of_declared_length(body: Seq<u8>, rest: Seq<u8>)
    requires
        body.len() <= u64::MAX,
    ensures
        body_bytes(body + seq![NULL] + rest, Some(body.len() as u64)) == body,
        after_body(body + seq![NULL] + rest, Some(body.len() as u64)) == rest,
{
    let upstream = body + seq![NULL] + rest;
    let behind = upstream.skip(body.len() as int);
    assert(upstream.take(body.len() as int) == body);
    assert(behind == seq![NULL] + rest);
    lemma_offset_of_is(behind, NULL, 0);
    assert(behind.skip(1) == rest);
}

/// A body that was written with the null byte behind it, and whose length
/// is not declared, is read back up to its first null byte: exactly if and
/// only if it holds none. If it holds none, what is left behind the frame
/// is what followed the null byte.
pub proof fn lemma_body_without_length(body: Seq<u8>, rest: Seq<u8>)
    ensures
        body_bytes(body + seq![NULL] + rest, None) == body.take(offset_of(body, NULL) as int),
        body_bytes(body + seq![NULL] + rest, None) == body <==> forall|i: int|
            0 <= i < body.len() ==> body[i] != NULL,
        (forall|i: int| 0 <= i < body.len() ==> body[i] != NULL) ==> after_body(
            body + seq![NULL] + rest,
            None,
        ) == rest,
{
    let upstream = body + seq![NULL] + rest;
    let p = offset_of(body, NULL);
    lemma_offset_of(body, NULL);
    assert forall|i: int| 0 <= i < p implies upstream[i] != NULL by {
        assert(upstream[i] == body[i]);
    }
    assert(upstream[p as int] == NULL) by {
        if p < body.len() {
            assert(upstream[p as int] == body[p as int]);
        }
    }
    lemma_offset_of_is(upstream, NULL, p);
    assert(upstream.take(p as int) == body.take(p as int));
    if p == body.len() {
        assert(body.take(p as int) == body);
        let behind = upstream.skip(p as int);
        assert(behind == seq![NULL] + rest);
        lemma_offset_of_is(behind, NULL, 0);
        assert(behind.skip(1) == rest);
    } else {
        assert(body.take(p as int).len() != body.len());
    }
}

/// The body of a frame: a one-shot stream of bytes, read from the source
/// that it holds until the frame is closed.
///
/// A body of a declared length is read through the length-limited reader,
/// and the delimited reader passes over the null byte behind it when the
/// body is closed. A body without a declared length is read through the
/// delimited reader alone.
#[derive(Debug)]
pub struct Body {
    source: ByteSource,
    bounded: bool,
    limited: LimitedReader,
    terminator: DelimitedReader,
}

impl Body {
    #[verifier::type_invariant]
    spec fn inv(&self) -> bool {
        &&& self.terminator.delimiter() == NULL
        &&& !self.terminator.keeps_delimiter()
        &&& self.bounded && self.terminator.is_done() ==> self.limited.limit() == 0
    }

    /// The bytes that the source of the body still holds.
    pub closed spec fn upstream(&self) -> Seq<u8> {
        self.source.remaining()
    }

    /// The number of bytes that a body of a declared length may still
    /// yield; nothing for a body that ends before a null byte.
    pub closed spec fn length_left(&self) -> Option<u64> {
        if self.bounded {
            Some(self.limited.limit())
        } else {
            None
        }
    }

    /// Whether the null byte that ends the frame was taken off the source.
    pub closed spec fn is_closed(&self) -> bool {
        self.terminator.is_done()
    }

    /// The number of bytes that one read with room for `room` bytes takes
    /// off the source: the bytes that it yields, and behind a body without
    /// a declared length the null byte if the read reaches it.
    pub open spec fn read_takes(&self, room: nat) -> nat {
        if self.length_left() is Some {
            least(room, self.pending().len())
        } else if self.is_closed() {
            0
        } else {
            delimited_taken(self.upstream(), NULL, room)
        }
    }

    /// The number of bytes that reading to the end takes off the source:
    /// the bytes that it yields, and behind a body without a declared
    /// length the null byte if there is one.
    pub open spec fn read_to_end_takes(&self) -> nat {
        if self.length_left() is Some {
            self.pending().len()
        } else if self.is_closed() {
            0
        } else {
            delimited_taken_all(self.upstream(), NULL)
        }
    }

    /// The bytes that the body will still yield.
    pub closed spec fn pending(&self) -> Seq<u8> {
        if self.bounded {
            body_bytes(self.source.remaining(), Some(self.limited.limit()))
        } else if self.terminator.is_done() {
            Seq::empty()
        } else {
            body_bytes(self.source.remaining(), None)
        }
    }

    /// What will be left of the source when the body is closed: the bytes
    /// behind the end of the frame.
    pub closed spec fn after(&self) -> Seq<u8> {
        if self.terminator.is_done() {
            self.source.remaining()
        } else if self.bounded {
            after_body(self.source.remaining(), Some(self.limited.limit()))
        } else {
            after_body(self.source.remaining(), None)
        }
    }

    /// A body of `length` bytes at the start of the source.
    pub(crate) fn bounded(source: ByteSource, length: u64) -> (body: Body)
        ensures
            body.upstream() == source.remaining(),
            body.length_left() == Some(length),
            !body.is_closed(),
            body.pending() == body_bytes(source.remaining(), Some(length)),
            body.after() == after_body(source.remaining(), Some(length)),
    {
        Body {
            source,
            bounded: true,
            limited: LimitedReader::new(length),
            terminator: DelimitedReader::new(NULL),
        }
    }

    /// A body at the start of the source that ends before the first null
    /// byte.
    pub(crate) fn terminated(source: ByteSource) -> (body: Body)
        ensures
            body.upstream() == source.remaining(),
            body.length_left() is None,
            !body.is_closed(),
            body.pending() == body_bytes(source.remaining(), None),
            body.after() == after_body(source.remaining(), None),
    {
        Body {
            source,
            bounded: false,
            limited: LimitedReader::new(0),
            terminator: DelimitedReader::new(NULL),
        }
    }

    /// Takes the source and the readers out of the body, to work on them.
    fn take_parts(&mut self) -> (parts: (ByteSource, LimitedReader, DelimitedReader))
        ensures
            parts.0 == old(self).source,
            parts.1 == old(self).limited,
            parts.2 == old(self).terminator,
            final(self).bounded == old(self).bounded,
            parts.2.delimiter() == NULL,
            !parts.2.keeps_delimiter(),
            old(self).bounded && parts.2.is_done() ==> parts.1.limit() == 0,
    {
        proof {
            use_type_invariant(&*self);
        }
        let mut source = ByteSource::empty();
        let mut limited = LimitedReader::new(0);
        let mut terminator = DelimitedReader::new(NULL);
        core::mem::swap(&mut self.source, &mut source);
        core::mem::swap(&mut self.limited, &mut limited);
        core::mem::swap(&mut self.terminator, &mut terminator);
        (source, limited, terminator)
    }

    /// Puts the source and the readers back into the body.
    fn put_parts(&mut self, source: ByteSource, limited: LimitedReader, terminator: DelimitedReader)
        requires
            terminator.delimiter() == NULL,
            !terminator.keeps_delimiter(),
            old(self).bounded && terminator.is_done() ==> limited.limit() == 0,
        ensures
            final(self).source == source,
            final(self).limited == limited,
            final(self).terminator == terminator,
            final(self).bounded == old(self).bounded,
    {
        proof {
            use_type_invariant(&*self);
        }
        self.source = source;
        self.terminator = DelimitedReader::new(NULL);
        self.limited = limited;
        self.terminator = terminator;
    }

    /// Reads the next bytes of the body into `buf`: as many as are pending
    /// and fit. Returns their number; 0 once the body is at its end. Where
    /// the frame ends does not change.
    pub fn read(&mut self, buf: &mut [u8]) -> (n: usize)
        ensures
            n == least(old(buf)@.len(), old(self).pending().len()),
            final(buf)@ == old(self).pending().take(n as int) + old(buf)@.skip(n as int),
            final(self).pending() == old(self).pending().skip(n as int),
            final(self).after() == old(self).after(),
            final(self).upstream() == old(self).upstream().skip(
                old(self).read_takes(old(buf)@.len()) as int,
            ),
            final(self).length_left() == match old(self).length_left() {
                Some(left) => Some((left - n) as u64),
                None => None,
            },
            final(self).is_closed() == (old(self).is_closed() || (old(self).length_left() is None
                && delimiter_reached(old(self).upstream(), NULL, old(buf)@.len()))),
    {
        let (mut source, mut limited, mut terminator) = self.take_parts();
        let ghost upstream = source.remaining();
        let n = if self.bounded {
            let ghost left = limited.limit() as nat;
            let n = limited.read(&mut source, buf);
            proof {
                let k = least(left, upstream.len());
                assert(upstream.skip(n as int).take(k - n) == upstream.take(k as int).skip(
                    n as int,
                ));
                assert(upstream.take(k as int).take(n as int) == upstream.take(n as int));
                assert(upstream.skip(n as int).skip(k - n) == upstream.skip(k as int));
            }
            n
        } else {
            proof {
                lemma_offset_of(upstream, NULL);
            }
            let ghost was_done = terminator.is_done();
            let n = terminator.read(&mut source, buf);
            proof {
                let p = offset_of(upstream, NULL);
                if !was_done {
                    assert(upstream.take(p as int).take(n as int) == upstream.take(n as int));
                    if terminator.is_done() {
                        assert(upstream.take(p as int).skip(n as int) == Seq::<u8>::empty());
                    } else {
                        lemma_offset_of_skip(upstream, NULL, n as nat);
                        assert(upstream.skip(n as int).take(p - n) == upstream.take(p as int).skip(
                            n as int,
                        ));
                        assert(upstream.skip(n as int).skip(p - n) == upstream.skip(p as int));
                    }
                } else {
                    assert(upstream.skip(0) == upstream);
                }
            }
            n
        };
        self.put_parts(source, limited, terminator);
        n
    }

    /// Moves the pending bytes of the body to the end of `out`, and says how
    /// many that was. Where the frame ends does not change.
    pub fn read_to_end(&mut self, out: &mut Vec<u8>) -> (n: usize)
        ensures
            n == old(self).pending().len(),
            final(out)@ == old(out)@ + old(self).pending(),
            final(self).pending() == Seq::<u8>::empty(),
            final(self).after() == old(self).after(),
            final(self).upstream() == old(self).upstream().skip(
                old(self).read_to_end_takes() as int,
            ),
            final(self).length_left() == match old(self).length_left() {
                Some(left) => Some((left - n) as u64),
                None => None,
            },
            final(self).is_closed() == (old(self).is_closed() || (old(self).length_left() is None
                && offset_of(old(self).upstream(), NULL) < old(self).upstream().len())),
    {
        let (mut source, mut limited, mut terminator) = self.take_parts();
        let ghost upstream = source.remaining();
        let n = if self.bounded {
            let n = limited.read_to_end(&mut source, out);
            proof {
                assert(upstream.skip(n as int).take(0) == Seq::<u8>::empty());
                assert(upstream.skip(n as int).skip(0) == upstream.skip(n as int));
            }
            n
        } else {
            proof {
                lemma_offset_of(upstream, NULL);
            }
            let ghost was_done = terminator.is_done();
            let n = terminator.read_to_end(&mut source, out);
            proof {
                let rest = source.remaining();
                if !was_done && !terminator.is_done() {
                    assert(rest.len() == 0);
                    lemma_offset_of(rest, NULL);
                    assert(rest.take(0) == Seq::<u8>::empty());
                    assert(rest.skip(0) == rest);
                }
                if was_done {
                    assert(upstream.skip(0) == upstream);
                }
            }
            n
        };
        self.put_parts(source, limited, terminator);
        n
    }

    /// Passes over the bytes of the body that were not read and over the
    /// null byte that ends the frame. The source then stands behind the
    /// frame.
    pub fn close(&mut self)
        ensures
            final(self).upstream() == old(self).after(),
            final(self).after() == old(self).after(),
            final(self).pending() == Seq::<u8>::empty(),
    {
        let (mut source, mut limited, mut terminator) = self.take_parts();
        let ghost upstream = source.remaining();
        proof {
            lemma_offset_of(upstream, NULL);
            assert(upstream.skip(0) == upstream);
        }
        if self.bounded {
            limited.drain(&mut source);
        }
        let ghost rest = source.remaining();
        proof {
            lemma_offset_of(rest, NULL);
        }
        terminator.drain(&mut source);
        proof {
            let last = source.remaining();
            assert(last.take(0) == Seq::<u8>::empty());
            assert(last.skip(0) == last);
            if !terminator.is_done() {
                assert(last.len() == 0);
                lemma_offset_of(last, NULL);
            }
        }
        self.put_parts(source, limited, terminator);
    }

    /// Gives up the body and hands its source on, as it stands.
    pub fn into_source(self) -> (source: ByteSource)
        ensures
            source.remaining() == self.upstream(),
    {
        self.source
    }
}

/// Makes the body of a frame from a source and, where the frame declares
/// one, the length of the body.
#[derive(Debug)]
pub struct BodyBuilder {
    source: ByteSource,
    content_length: Option<u64>,
}

impl BodyBuilder {
    /// The bytes of the source that the body will be read from.
    pub closed spec fn upstream(&self) -> Seq<u8> {
        self.source.remaining()
    }

    /// The length that was declared for the body, if any.
    pub closed spec fn length(&self) -> Option<u64> {
        self.content_length
    }

    /// A builder of a body on the source, with no length declared.
    pub fn new(source: ByteSource) -> (builder: BodyBuilder)
        ensures
            builder.upstream() == source.remaining(),
            builder.length() is None,
    {
        BodyBuilder { source, content_length: None }
    }

    /// Declares the length of the body.
    pub fn content_length(self, length: u64) -> (builder: BodyBuilder)
        ensures
            builder.upstream() == self.upstream(),
            builder.length() == Some(length),
    {
        BodyBuilder { source: self.source, content_length: Some(length) }
    }

    /// The body: of the declared length where one was declared, else ending
    /// before the first null byte.
    pub fn build(self) -> (body: Body)
        ensures
            body.upstream() == self.upstream(),
            body.length_left() == self.length(),
            !body.is_closed(),
            body.pending() == body_bytes(self.upstream(), self.length()),
            body.after() == after_body(self.upstream(), self.length()),
    {
        match self.content_length {
            Some(n) => Body::bounded(self.source, n),
            None => Body::terminated(self.source),
        }
    }
}

} // verus!
