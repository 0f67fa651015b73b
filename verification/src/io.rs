use crate::scan::{least, lemma_offset_of, lemma_offset_of_at_least, lemma_offset_of_is, offset_of};
use crate::source::ByteSource;
use vstd::prelude::*;

verus! {

/// The byte that ends a line.
pub const EOL: u8 = 0x0A;

/// The byte that ends a frame.
pub const NULL: u8 = 0x00;

/// Whether one read with room for `room` bytes reaches the delimiter.
pub open spec fn delimiter_reached(upstream: Seq<u8>, delimiter: u8, room: nat) -> bool {
    offset_of(upstream, delimiter) < upstream.len() && offset_of(upstream, delimiter) < room
}

/// The number of upstream bytes that one delimited read with room for
/// `room` bytes consumes: through the delimiter if it is reached, else as
/// many as there are and fit.
pub open spec fn delimited_taken(upstream: Seq<u8>, delimiter: u8, room: nat) -> nat {
    if delimiter_reached(upstream, delimiter, room) {
        offset_of(upstream, delimiter) + 1
    } else {
        least(room, upstream.len())
    }
}

/// The bytes that one delimited read with room for `room` bytes delivers:
/// those before the delimiter if it is reached, and the delimiter itself
/// only if `keep` is set; else as many as there are and fit.
pub open spec fn delimited_given(upstream: Seq<u8>, delimiter: u8, keep: bool, room: nat) -> Seq<
    u8,
> {
    if delimiter_reached(upstream, delimiter, room) {
        if keep {
            upstream.take(offset_of(upstream, delimiter) as int + 1)
        } else {
            upstream.take(offset_of(upstream, delimiter) as int)
        }
    } else {
        upstream.take(least(room, upstream.len()) as int)
    }
}

/// The number of upstream bytes that a delimited reader consumes when it is
/// read to its end: through the first delimiter, or all where there is none.
pub open spec fn delimited_taken_all(upstream: Seq<u8>, delimiter: u8) -> nat {
    least(offset_of(upstream, delimiter) + 1, upstream.len())
}

/// The bytes that a delimited reader delivers when it is read to its end:
/// those before the first delimiter, and the delimiter itself only if
/// `keep` is set.
pub open spec fn delimited_given_all(upstream: Seq<u8>, delimiter: u8, keep: bool) -> Seq<u8> {
    if keep {
        upstream.take(delimited_taken_all(upstream, delimiter) as int)
    } else {
        upstream.take(offset_of(upstream, delimiter) as int)
    }
}

/// Yields at most a fixed number of upstream bytes, then signals the end.
#[derive(Debug)]
pub struct LimitedReader {
    limit: u64,
}

impl LimitedReader {
    /// The number of bytes that the reader may still yield.
    pub closed spec fn limit(&self) -> u64 {
        self.limit
    }

    /// A reader that yields at most `limit` bytes.
    pub fn new(limit: u64) -> (reader: LimitedReader)
        ensures
            reader.limit() == limit,
    {
        LimitedReader { limit }
    }

    /// The number of bytes that the reader may still yield.
    pub fn remaining_limit(&self) -> (limit: u64)
        ensures
            limit == self.limit(),
    {
        self.limit
    }

    /// The number of bytes that one read with room for `room` bytes moves.
    pub open spec fn taken(&self, upstream: Seq<u8>, room: nat) -> nat {
        least(self.limit() as nat, least(room, upstream.len()))
    }

    /// How many of the `want` bytes that a caller would like the limit
    /// allows.
    pub fn allowance(&self, want: usize) -> (allowed: usize)
        ensures
            allowed == least(self.limit() as nat, want as nat),
    {
        if self.limit < want as u64 {
            self.limit as usize
        } else {
            want
        }
    }

    /// Takes `n` bytes off the limit, or all that it has left if that is
    /// less.
    pub fn consume(&mut self, n: usize)
        ensures
            final(self).limit() == old(self).limit() - least(n as nat, old(self).limit() as nat),
    {
        if (n as u64) < self.limit {
            self.limit -= n as u64;
        } else {
            self.limit = 0;
        }
    }

    /// Reads up to `buf.len()` bytes, but no more than the limit allows, and
    /// takes what was read off the limit. Returns the number of bytes read;
    /// 0 once the limit is used up.
    pub fn read(&mut self, source: &mut ByteSource, buf: &mut [u8]) -> (n: usize)
        ensures
            n == old(self).taken(old(source).remaining(), old(buf)@.len()),
            final(buf)@ == old(source).remaining().take(n as int) + old(buf)@.skip(n as int),
            final(source).remaining() == old(source).remaining().skip(n as int),
            final(self).limit() == old(self).limit() - n,
    {
        let mut n: usize = 0;
        let allowed = self.allowance(buf.len());
        let ghost upstream = source.remaining();
        while n < allowed
            invariant
                n <= allowed <= buf@.len(),
                buf@.len() == old(buf)@.len(),
                n <= upstream.len(),
                upstream == old(source).remaining(),
                source.remaining() == upstream.skip(n as int),
                buf@ == upstream.take(n as int) + old(buf)@.skip(n as int),
            ensures
                n == least(allowed as nat, upstream.len()),
            decreases allowed - n,
        {
            match source.read_byte() {
                None => {
                    break ;
                },
                Some(b) => {
                    buf[n] = b;
                    n += 1;
                },
            }
        }
        self.consume(n);
        n
    }

    /// Moves bytes to the end of `out` until the limit is used up or the
    /// source is at its end, and says how many that was.
    pub fn read_to_end(&mut self, source: &mut ByteSource, out: &mut Vec<u8>) -> (n: usize)
        ensures
            n == least(old(self).limit() as nat, old(source).remaining().len()),
            final(out)@ == old(out)@ + old(source).remaining().take(n as int),
            final(source).remaining() == old(source).remaining().skip(n as int),
            final(self).limit() == old(self).limit() - n,
    {
        let mut n: usize = 0;
        let total = source.remaining_len();
        let ghost upstream = source.remaining();
        while self.limit > 0
            invariant
                n <= upstream.len(),
                upstream.len() == total,
                upstream == old(source).remaining(),
                source.remaining() == upstream.skip(n as int),
                out@ == old(out)@ + upstream.take(n as int),
                self.limit == old(self).limit - n,
            ensures
                n == least(old(self).limit as nat, upstream.len()),
            decreases self.limit,
        {
            match source.read_byte() {
                None => {
                    break ;
                },
                Some(b) => {
                    out.push(b);
                    n += 1;
                    self.limit -= 1;
                },
            }
        }
        n
    }
}

impl LimitedReader {
    /// Passes over what the reader would still yield, and says over how
    /// many bytes.
    pub fn drain(&mut self, source: &mut ByteSource) -> (n: usize)
        ensures
            n == least(old(self).limit() as nat, old(source).remaining().len()),
            final(source).remaining() == old(source).remaining().skip(n as int),
            final(self).limit() == old(self).limit() - n,
    {
        let left = source.remaining_len();
        let want: usize = if self.limit < left as u64 {
            self.limit as usize
        } else {
            left
        };
        let n = source.skip(want);
        self.limit -= n as u64;
        n
    }
}

/// Yields upstream bytes until it meets a delimiter byte, then signals the
/// end. The delimiter is taken off the source; it is handed to the caller
/// only by a reader made with `inclusive`.
#[derive(Debug)]
pub struct DelimitedReader {
    delimiter: u8,
    keep: bool,
    done: bool,
}

impl DelimitedReader {
    /// The byte at which the reader stops.
    pub closed spec fn delimiter(&self) -> u8 {
        self.delimiter
    }

    /// Whether the reader hands the delimiter to the caller.
    pub closed spec fn keeps_delimiter(&self) -> bool {
        self.keep
    }

    /// Whether the reader has met its delimiter.
    pub closed spec fn is_done(&self) -> bool {
        self.done
    }

    /// Whether this reader is `before` after a read that met the delimiter
    /// or not, as `met` says.
    pub open spec fn follows(&self, before: &DelimitedReader, met: bool) -> bool {
        &&& self.delimiter() == before.delimiter()
        &&& self.keeps_delimiter() == before.keeps_delimiter()
        &&& self.is_done() == (before.is_done() || met)
    }

    /// A reader that stops at `delimiter` and does not deliver it.
    pub fn new(delimiter: u8) -> (reader: DelimitedReader)
        ensures
            reader.delimiter() == delimiter,
            !reader.keeps_delimiter(),
            !reader.is_done(),
    {
        DelimitedReader { delimiter, keep: false, done: false }
    }

    /// A reader that stops at `delimiter` and delivers it as its last byte,
    /// as a reader of lines does with the line feed.
    pub fn inclusive(delimiter: u8) -> (reader: DelimitedReader)
        ensures
            reader.delimiter() == delimiter,
            reader.keeps_delimiter(),
            !reader.is_done(),
    {
        DelimitedReader { delimiter, keep: true, done: false }
    }

    /// Whether the reader has met its delimiter.
    pub fn finished(&self) -> (done: bool)
        ensures
            done == self.is_done(),
    {
        self.done
    }

    /// Takes one upstream byte. The delimiter ends the reader, and is
    /// handed on only by a reader that keeps it; any other byte is handed
    /// on. A reader that has met its delimiter hands nothing on.
    pub fn accept(&mut self, byte: u8) -> (given: Option<u8>)
        ensures
            final(self).follows(old(self), byte == old(self).delimiter()),
            given == if old(self).is_done() || (byte == old(self).delimiter() && !old(
                self,
            ).keeps_delimiter()) {
                None
            } else {
                Some(byte)
            },
    {
        if self.done {
            None
        } else if byte == self.delimiter {
            self.done = true;
            if self.keep {
                Some(byte)
            } else {
                None
            }
        } else {
            Some(byte)
        }
    }

    /// The number of upstream bytes that one read with room for `room`
    /// bytes consumes.
    pub open spec fn taken(&self, upstream: Seq<u8>, room: nat) -> nat {
        if self.is_done() {
            0
        } else {
            delimited_taken(upstream, self.delimiter(), room)
        }
    }

    /// The bytes that one read with room for `room` bytes delivers.
    pub open spec fn given(&self, upstream: Seq<u8>, room: nat) -> Seq<u8> {
        if self.is_done() {
            Seq::empty()
        } else {
            delimited_given(upstream, self.delimiter(), self.keeps_delimiter(), room)
        }
    }

    /// The number of upstream bytes that reading to the end consumes.
    pub open spec fn taken_all(&self, upstream: Seq<u8>) -> nat {
        if self.is_done() {
            0
        } else {
            delimited_taken_all(upstream, self.delimiter())
        }
    }

    /// The bytes that reading to the end delivers.
    pub open spec fn given_all(&self, upstream: Seq<u8>) -> Seq<u8> {
        if self.is_done() {
            Seq::empty()
        } else {
            delimited_given_all(upstream, self.delimiter(), self.keeps_delimiter())
        }
    }

    /// Reads one upstream byte at a time into `buf` until `buf` is full, the
    /// source is at its end or the delimiter is met. Returns the number of
    /// bytes put into `buf`; 0 on every read after the delimiter was met.
    pub fn read(&mut self, source: &mut ByteSource, buf: &mut [u8]) -> (n: usize)
        ensures
            final(buf)@ == old(self).given(old(source).remaining(), old(buf)@.len()) + old(
                buf,
            )@.skip(n as int),
            n == old(self).given(old(source).remaining(), old(buf)@.len()).len(),
            final(source).remaining() == old(source).remaining().skip(
                old(self).taken(old(source).remaining(), old(buf)@.len()) as int,
            ),
            final(self).follows(
                old(self),
                delimiter_reached(old(source).remaining(), old(self).delimiter(), old(buf)@.len()),
            ),
    {
        let ghost upstream = source.remaining();
        if self.done {
            assert(upstream.skip(0) == upstream);
            assert(buf@.skip(0) == buf@);
            return 0;
        }
        let mut n: usize = 0;
        while n < buf.len()
            invariant
                n <= buf@.len(),
                buf@.len() == old(buf)@.len(),
                n <= upstream.len(),
                upstream == old(source).remaining(),
                source.remaining() == upstream.skip(n as int),
                buf@ == upstream.take(n as int) + old(buf)@.skip(n as int),
                forall|i: int| 0 <= i < n ==> upstream[i] != self.delimiter,
                offset_of(upstream, self.delimiter) >= n,
                *self == *old(self),
                !self.done,
            ensures
                n == least(buf@.len(), upstream.len()),
                !delimiter_reached(upstream, self.delimiter, buf@.len()),
            decreases buf@.len() - n,
        {
            match source.read_byte() {
                None => {
                    proof {
                        lemma_offset_of_is(upstream, self.delimiter, n as nat);
                    }
                    break ;
                },
                Some(b) => {
                    proof {
                        if b == self.delimiter {
                            lemma_offset_of_is(upstream, self.delimiter, n as nat);
                        }
                        assert(upstream.skip(n as int).skip(1) == upstream.skip(n + 1));
                    }
                    match self.accept(b) {
                        Some(given) => {
                            buf[n] = given;
                            n += 1;
                        },
                        None => {},
                    }
                    if self.done {
                        return n;
                    }
                },
            }
            proof {
                lemma_offset_of_at_least(upstream, self.delimiter, n as nat);
            }
        }
        n
    }

    /// Moves bytes to the end of `out` until the delimiter is met or the
    /// source is at its end, and says how many were moved.
    pub fn read_to_end(&mut self, source: &mut ByteSource, out: &mut Vec<u8>) -> (n: usize)
        ensures
            final(out)@ == old(out)@ + old(self).given_all(old(source).remaining()),
            n == old(self).given_all(old(source).remaining()).len(),
            final(source).remaining() == old(source).remaining().skip(
                old(self).taken_all(old(source).remaining()) as int,
            ),
            final(self).follows(
                old(self),
                offset_of(old(source).remaining(), old(self).delimiter()) < old(source).remaining().len(),
            ),
    {
        let ghost upstream = source.remaining();
        if self.done {
            assert(upstream.skip(0) == upstream);
            return 0;
        }
        let total = source.remaining_len();
        let mut n: usize = 0;
        loop
            invariant
                n <= upstream.len(),
                upstream.len() == total,
                upstream == old(source).remaining(),
                source.remaining() == upstream.skip(n as int),
                out@ == old(out)@ + upstream.take(n as int),
                forall|i: int| 0 <= i < n ==> upstream[i] != self.delimiter,
                *self == *old(self),
                !self.done,
            ensures
                n == upstream.len(),
                offset_of(upstream, self.delimiter) == upstream.len(),
                source.remaining() == upstream.skip(n as int),
                out@ == old(out)@ + upstream.take(n as int),
                *self == *old(self),
            decreases upstream.len() - n,
        {
            match source.read_byte() {
                None => {
                    proof {
                        lemma_offset_of_is(upstream, self.delimiter, n as nat);
                    }
                    break ;
                },
                Some(b) => {
                    proof {
                        if b == self.delimiter {
                            lemma_offset_of_is(upstream, self.delimiter, n as nat);
                        }
                        assert(upstream.skip(n as int).skip(1) == upstream.skip(n + 1));
                    }
                    match self.accept(b) {
                        Some(given) => {
                            out.push(given);
                            n += 1;
                        },
                        None => {},
                    }
                    if self.done {
                        return n;
                    }
                },
            }
        }
        n
    }
}

impl DelimitedReader {
    /// Passes over what the reader would still yield and over its
    /// delimiter, and says over how many bytes.
    pub fn drain(&mut self, source: &mut ByteSource) -> (n: usize)
        ensures
            n == old(self).taken_all(old(source).remaining()),
            final(source).remaining() == old(source).remaining().skip(n as int),
            final(self).follows(
                old(self),
                offset_of(old(source).remaining(), old(self).delimiter()) < old(source).remaining().len(),
            ),
    {
        let ghost upstream = source.remaining();
        if self.done {
            assert(upstream.skip(0) == upstream);
            return 0;
        }
        let total = source.remaining_len();
        let mut n: usize = 0;
        loop
            invariant
                n <= upstream.len(),
                upstream.len() == total,
                upstream == old(source).remaining(),
                source.remaining() == upstream.skip(n as int),
                forall|i: int| 0 <= i < n ==> upstream[i] != self.delimiter,
                *self == *old(self),
                !self.done,
            ensures
                n == upstream.len(),
                offset_of(upstream, self.delimiter) == upstream.len(),
                source.remaining() == upstream.skip(n as int),
                *self == *old(self),
            decreases upstream.len() - n,
        {
            match source.read_byte() {
                None => {
                    proof {
                        lemma_offset_of_is(upstream, self.delimiter, n as nat);
                    }
                    break ;
                },
                Some(b) => {
                    proof {
                        if b == self.delimiter {
                            lemma_offset_of_is(upstream, self.delimiter, n as nat);
                        }
                        assert(upstream.skip(n as int).skip(1) == upstream.skip(n + 1));
                    }
                    self.accept(b);
                    n += 1;
                    if self.done {
                        return n;
                    }
                },
            }
        }
        n
    }
}

/// Reads from a length-limited reader until it is used up, then from a
/// delimited reader on the same source.
#[derive(Debug)]
pub struct BiReader {
    first: LimitedReader,
    second: DelimitedReader,
}

impl BiReader {
    /// The reader that is read first.
    pub closed spec fn first(&self) -> LimitedReader {
        self.first
    }

    /// The reader that is read once the first yields nothing.
    pub closed spec fn second(&self) -> DelimitedReader {
        self.second
    }

    /// A reader of `first`, then of `second`.
    pub fn new(first: LimitedReader, second: DelimitedReader) -> (reader: BiReader)
        ensures
            reader.first() == first,
            reader.second() == second,
    {
        BiReader { first, second }
    }

    /// Reads from the first reader; only if that yields nothing, reads from
    /// the second. Returns the number of bytes put into `buf`.
    pub fn read(&mut self, source: &mut ByteSource, buf: &mut [u8]) -> (n: usize)
        ensures
            ({
                let upstream = old(source).remaining();
                let room = old(buf)@.len();
                let n1 = old(self).first().taken(upstream, room);
                if n1 > 0 {
                    &&& n == n1
                    &&& final(buf)@ == upstream.take(n as int) + old(buf)@.skip(n as int)
                    &&& final(source).remaining() == upstream.skip(n as int)
                    &&& final(self).first().limit() == old(self).first().limit() - n
                    &&& final(self).second() == old(self).second()
                } else {
                    &&& n == old(self).second().given(upstream, room).len()
                    &&& final(buf)@ == old(self).second().given(upstream, room) + old(buf)@.skip(
                        n as int,
                    )
                    &&& final(source).remaining() == upstream.skip(
                        old(self).second().taken(upstream, room) as int,
                    )
                    &&& final(self).first() == old(self).first()
                    &&& final(self).second().follows(
                        &old(self).second(),
                        delimiter_reached(upstream, old(self).second().delimiter(), room),
                    )
                }
            }),
    {
        let n1 = self.first.read(source, buf);
        if n1 > 0 {
            return n1;
        }
        proof {
            assert(source.remaining() == old(source).remaining()) by {
                assert(old(source).remaining().skip(0) == old(source).remaining());
            }
            assert(buf@ == old(buf)@) by {
                assert(old(buf)@.skip(0) == old(buf)@);
                assert(old(source).remaining().take(0) + old(buf)@ == old(buf)@);
            }
        }
        self.second.read(source, buf)
    }

    /// Moves to the end of `out` what the first reader yields until it is
    /// used up, then what the second yields until its delimiter, and says
    /// how many bytes were moved.
    pub fn read_to_end(&mut self, source: &mut ByteSource, out: &mut Vec<u8>) -> (n: usize)
        ensures
            ({
                let upstream = old(source).remaining();
                let k = least(old(self).first().limit() as nat, upstream.len());
                let rest = upstream.skip(k as int);
                &&& final(out)@ == old(out)@ + upstream.take(k as int) + old(self).second().given_all(rest)
                &&& n == k + old(self).second().given_all(rest).len()
                &&& final(source).remaining() == rest.skip(
                    old(self).second().taken_all(rest) as int,
                )
                &&& final(self).first().limit() == old(self).first().limit() - k
                &&& final(self).second().follows(
                    &old(self).second(),
                    offset_of(rest, old(self).second().delimiter()) < rest.len(),
                )
            }),
    {
        let total = source.remaining_len();
        let n1 = self.first.read_to_end(source, out);
        proof {
            lemma_offset_of(source.remaining(), self.second.delimiter());
        }
        let n2 = self.second.read_to_end(source, out);
        n1 + n2
    }
}

} // verus!
