use vstd::prelude::*;

verus! {

/// An in-memory byte source that is read from front to back.
///
/// Everything that reads a frame takes its bytes from one such source, one
/// reader after the other, each starting where the one before stopped.
#[derive(Debug)]
pub struct ByteSource {
    data: Vec<u8>,
    pos: usize,
}

impl ByteSource {
    #[verifier::type_invariant]
    spec fn inv(&self) -> bool {
        self.pos <= self.data@.len()
    }

    /// The bytes that have not been read yet.
    pub closed spec fn remaining(&self) -> Seq<u8> {
        if self.pos <= self.data@.len() {
            self.data@.skip(self.pos as int)
        } else {
            Seq::empty()
        }
    }

    /// A source that will yield the given bytes.
    pub fn new(data: Vec<u8>) -> (source: ByteSource)
        ensures
            source.remaining() == data@,
    {
        ByteSource { data, pos: 0 }
    }

    /// A source that yields nothing.
    pub fn empty() -> (source: ByteSource)
        ensures
            source.remaining() == Seq::<u8>::empty(),
    {
        ByteSource { data: Vec::new(), pos: 0 }
    }

    /// Whether every byte has been read.
    pub fn is_empty(&self) -> (none_left: bool)
        ensures
            none_left == (self.remaining().len() == 0),
    {
        proof {
            use_type_invariant(self);
        }
        self.pos == self.data.len()
    }

    /// The number of bytes that have not been read yet.
    pub fn remaining_len(&self) -> (n: usize)
        ensures
            n == self.remaining().len(),
    {
        proof {
            use_type_invariant(self);
        }
        self.data.len() - self.pos
    }

    /// Takes the next byte off the source, if there is one.
    pub fn read_byte(&mut self) -> (byte: Option<u8>)
        ensures
            match byte {
                Some(b) => old(self).remaining().len() > 0 && b == old(self).remaining()[0]
                    && final(self).remaining() == old(self).remaining().skip(1),
                None => old(self).remaining().len() == 0 && final(self).remaining() == old(self).remaining(),
            },
    {
        proof {
            use_type_invariant(&*self);
        }
        if self.pos < self.data.len() {
            let b = self.data[self.pos];
            self.pos += 1;
            Some(b)
        } else {
            None
        }
    }

    /// Reads as many bytes as are left and fit into `buf`, and says how many
    /// that was. The rest of `buf` stays as it is.
    pub fn read(&mut self, buf: &mut [u8]) -> (n: usize)
        ensures
            n == vstd::math::min(old(buf)@.len() as int, old(self).remaining().len() as int),
            final(buf)@ == old(self).remaining().take(n as int) + old(buf)@.skip(n as int),
            final(self).remaining() == old(self).remaining().skip(n as int),
    {
        let mut n: usize = 0;
        let ghost upstream = self.remaining();
        while n < buf.len()
            invariant
                n <= buf@.len(),
                buf@.len() == old(buf)@.len(),
                n <= upstream.len(),
                upstream == old(self).remaining(),
                self.remaining() == upstream.skip(n as int),
                buf@ == upstream.take(n as int) + old(buf)@.skip(n as int),
            ensures
                n == vstd::math::min(buf@.len() as int, upstream.len() as int),
            decreases buf@.len() - n,
        {
            match self.read_byte() {
                None => {
                    break ;
                },
                Some(b) => {
                    buf[n] = b;
                    n += 1;
                },
            }
        }
        n
    }

    /// Passes over the next `n` bytes, or over all that are left if they are
    /// fewer, and says over how many.
    pub fn skip(&mut self, n: usize) -> (passed: usize)
        ensures
            passed == vstd::math::min(n as int, old(self).remaining().len() as int),
            final(self).remaining() == old(self).remaining().skip(passed as int),
    {
        proof {
            use_type_invariant(&*self);
        }
        let left = self.data.len() - self.pos;
        let passed = if n < left {
            n
        } else {
            left
        };
        assert(self.data@.skip(self.pos as int).skip(passed as int) == self.data@.skip(
            self.pos + passed,
        ));
        self.pos += passed;
        passed
    }

    /// Moves every byte that is left to the end of `out`, and says how many
    /// that was.
    pub fn read_to_end(&mut self, out: &mut Vec<u8>) -> (n: usize)
        ensures
            n == old(self).remaining().len(),
            final(out)@ == old(out)@ + old(self).remaining(),
            final(self).remaining().len() == 0,
    {
        let mut n: usize = 0;
        let total = self.remaining_len();
        let ghost upstream = self.remaining();
        loop
            invariant
                n <= upstream.len(),
                upstream == old(self).remaining(),
                self.remaining() == upstream.skip(n as int),
                out@ == old(out)@ + upstream.take(n as int),
                upstream.len() == total,
            ensures
                n == upstream.len(),
                out@ == old(out)@ + upstream,
                self.remaining().len() == 0,
            decreases upstream.len() - n,
        {
            match self.read_byte() {
                None => {
                    assert(upstream.take(n as int) == upstream);
                    break ;
                },
                Some(b) => {
                    out.push(b);
                    n += 1;
                },
            }
        }
        n
    }
}

} // verus!
