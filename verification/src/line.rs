use crate::error::ReadError;
use crate::io::EOL;
use crate::scan::{least, lemma_offset_of_at_least, lemma_offset_of_is, offset_of};
use crate::source::ByteSource;
use vstd::prelude::*;

verus! {

/// The text of the error for a line that does not fit its budget.
pub open spec fn line_too_long_text() -> Seq<char> {
    "line exceeds size limit"@
}

/// The length of the first line of `upstream`: through its first line
/// feed, or all of it where it holds none.
pub open spec fn line_length(upstream: Seq<u8>) -> nat {
    least(offset_of(upstream, EOL) + 1, upstream.len())
}

/// Takes the bytes of one line, one at a time, and says when the line is
/// complete: with its line feed, or with the end of the source. It lets
/// through no more bytes than its budget.
#[derive(Debug)]
pub struct LineReader {
    budget: u64,
    taken: u64,
    complete: bool,
}

impl LineReader {
    #[verifier::type_invariant]
    spec fn inv(&self) -> bool {
        self.taken <= self.budget
    }

    /// The largest number of bytes that the line may have.
    pub closed spec fn budget(&self) -> u64 {
        self.budget
    }

    /// The number of bytes that were taken into the line.
    pub closed spec fn taken(&self) -> u64 {
        self.taken
    }

    /// Whether the line is complete.
    pub closed spec fn is_complete(&self) -> bool {
        self.complete
    }

    /// A reader of a line of `budget` bytes at most.
    pub fn new(budget: u64) -> (reader: LineReader)
        ensures
            reader.budget() == budget,
            reader.taken() == 0,
            !reader.is_complete(),
    {
        LineReader { budget, taken: 0, complete: false }
    }

    /// Takes the next byte of the source, or learns with `None` that the
    /// source is at its end, and says whether the line is complete. A byte
    /// is put at the end of `line`; the line feed completes the line, and
    /// so does the end of the source. Fails with a format error on a byte
    /// for which the budget has no room. A complete line takes nothing
    /// more.
    pub fn accept(&mut self, byte: Option<u8>, line: &mut Vec<u8>) -> (step: Result<
        bool,
        ReadError,
    >)
        ensures
            final(self).budget() == old(self).budget(),
            final(self).taken() <= final(self).budget(),
            old(self).is_complete() ==> {
                &&& step matches Ok(done) && done
                &&& final(self).is_complete()
                &&& final(self).taken() == old(self).taken()
                &&& final(line)@ == old(line)@
            },
            !old(self).is_complete() ==> match (byte, step) {
                (None, Ok(done)) => {
                    &&& done
                    &&& final(self).is_complete()
                    &&& final(self).taken() == old(self).taken()
                    &&& final(line)@ == old(line)@
                },
                (Some(b), Ok(done)) => {
                    &&& done == (b == EOL)
                    &&& final(self).is_complete() == done
                    &&& final(self).taken() == old(self).taken() + 1
                    &&& final(line)@ == old(line)@.push(b)
                },
                (Some(b), Err(e)) => {
                    &&& old(self).taken() == old(self).budget()
                    &&& e.is_format(line_too_long_text())
                    &&& !final(self).is_complete()
                    &&& final(self).taken() == old(self).taken()
                    &&& final(line)@ == old(line)@
                },
                (None, Err(e)) => false,
            },
    {
        proof {
            use_type_invariant(&*self);
        }
        if self.complete {
            return Ok(true);
        }
        match byte {
            None => {
                self.complete = true;
                Ok(true)
            },
            Some(b) => {
                if self.taken == self.budget {
                    return Err(ReadError::format("line exceeds size limit"));
                }
                line.push(b);
                self.taken += 1;
                if b == EOL {
                    self.complete = true;
                }
                Ok(b == EOL)
            },
        }
    }
}

/// Reads one line, through and including its line feed, to the end of
/// `line`, one byte at a time, and returns its length: 0 at the end of the
/// source. A line that ends with the source has no line feed. Fails with a
/// format error if the line is longer than `budget`; how far the source
/// was read is then left open.
pub fn read_line(source: &mut ByteSource, budget: u64, line: &mut Vec<u8>) -> (read: Result<
    usize,
    ReadError,
>)
    ensures
        ({
            let upstream = old(source).remaining();
            match read {
                Ok(n) => {
                    &&& n == line_length(upstream)
                    &&& n <= budget
                    &&& final(line)@ == old(line)@ + upstream.take(n as int)
                    &&& final(source).remaining() == upstream.skip(n as int)
                },
                Err(e) => line_length(upstream) > budget && e.is_format(line_too_long_text()),
            }
        }),
{
    let ghost upstream = source.remaining();
    let total = source.remaining_len();
    let mut reader = LineReader::new(budget);
    let mut n: usize = 0;
    assert(upstream.skip(0) == upstream);
    loop
        invariant
            n <= upstream.len(),
            n == reader.taken(),
            reader.budget() == budget,
            !reader.is_complete(),
            upstream.len() == total,
            upstream == old(source).remaining(),
            source.remaining() == upstream.skip(n as int),
            line@ == old(line)@ + upstream.take(n as int),
            forall|i: int| 0 <= i < n ==> upstream[i] != EOL,
        decreases upstream.len() - n,
    {
        let byte = source.read_byte();
        proof {
            if byte is Some {
                assert(upstream.skip(n as int).skip(1) == upstream.skip(n + 1));
                assert(upstream.take(n + 1) == upstream.take(n as int).push(upstream[n as int]));
            }
        }
        match reader.accept(byte, line) {
            Ok(done) => {
                if done {
                    proof {
                        lemma_offset_of_is(upstream, EOL, n as nat);
                    }
                    return Ok(
                        if byte.is_some() {
                            n + 1
                        } else {
                            n
                        },
                    );
                }
                n += 1;
            },
            Err(e) => {
                proof {
                    lemma_offset_of_at_least(upstream, EOL, n as nat);
                }
                return Err(e);
            },
        }
    }
}

} // verus!
