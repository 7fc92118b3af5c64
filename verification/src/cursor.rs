//! A read position in a buffer of bytes.

use vstd::prelude::*;

use crate::bytes::{first_index, lemma_first_index_is, slice_to_vec};
use crate::error::Error;

verus! {

/// A buffer of bytes that is read from front to back.
pub struct Cursor {
    data: Vec<u8>,
    pos: usize,
}

impl Cursor {
    #[verifier::type_invariant]
    spec fn inv(self) -> bool {
        self.pos <= self.data@.len()
    }

    /// The bytes that have been read.
    pub closed spec fn consumed(self) -> Seq<u8> {
        self.data@.subrange(0, self.pos as int)
    }

    /// The bytes that are still to be read.
    pub closed spec fn remaining(self) -> Seq<u8> {
        self.data@.subrange(self.pos as int, self.data@.len() as int)
    }

    /// The whole buffer: what has been read, then what is still to be read.
    pub open spec fn buffer(self) -> Seq<u8> {
        self.consumed() + self.remaining()
    }

    /// A cursor at the start of `data`.
    pub fn new(data: Vec<u8>) -> (c: Cursor)
        ensures
            c.consumed() == Seq::<u8>::empty(),
            c.remaining() == data@,
    {
        let c = Cursor { data, pos: 0 };
        assert(c.data@.subrange(0, c.data@.len() as int) == c.data@);
        c
    }

    /// The number of bytes still to be read.
    pub fn remaining_len(&self) -> (n: usize)
        ensures
            n == self.remaining().len(),
    {
        proof {
            use_type_invariant(self);
        }
        self.data.len() - self.pos
    }

    /// The number of bytes that have been read.
    pub fn position(&self) -> (n: usize)
        ensures
            n == self.consumed().len(),
    {
        proof {
            use_type_invariant(self);
        }
        self.pos
    }

    /// The bytes that have been read.
    pub fn consumed_bytes(&self) -> (r: Vec<u8>)
        ensures
            r@ == self.consumed(),
    {
        proof {
            use_type_invariant(self);
        }
        slice_to_vec(self.data.as_slice(), 0, self.pos)
    }

    /// The bytes that are still to be read.
    pub fn remaining_bytes(&self) -> (r: Vec<u8>)
        ensures
            r@ == self.remaining(),
    {
        proof {
            use_type_invariant(self);
        }
        slice_to_vec(self.data.as_slice(), self.pos, self.data.len())
    }

    /// The bytes that are still to be read, in place.
    pub fn rest(&self) -> (r: &[u8])
        ensures
            r@ == self.remaining(),
    {
        proof {
            use_type_invariant(self);
        }
        vstd::slice::slice_subrange(self.data.as_slice(), self.pos, self.data.len())
    }

    /// Skips `n` bytes.
    pub fn advance(&mut self, n: usize)
        requires
            n <= old(self).remaining().len(),
        ensures
            final(self).buffer() == old(self).buffer(),
            final(self).consumed() == old(self).consumed() + old(self).remaining().take(n as int),
            final(self).remaining() == old(self).remaining().skip(n as int),
    {
        proof {
            use_type_invariant(&*self);
            assert(old(self).remaining().len() == self.data@.len() - self.pos);
            assert(self.data@.len() == self.data.len());
        }
        self.pos = self.pos + n;
        assert(final(self).consumed() =~= old(self).consumed() + old(self).remaining().take(
            n as int,
        ));
        assert(final(self).buffer() =~= old(self).buffer());
        assert(final(self).remaining() =~= old(self).remaining().skip(n as int));
    }

    /// Reads one byte; fails with `UnexpectedEof`, reading nothing, at the
    /// end of the buffer.
    pub fn read_byte(&mut self) -> (r: Result<u8, Error>)
        ensures
            final(self).buffer() == old(self).buffer(),
            ({
                let rest = old(self).remaining();
                if rest.len() > 0 {
                    &&& r == Ok::<u8, Error>(rest[0])
                    &&& final(self).remaining() == rest.skip(1)
                    &&& final(self).consumed() == old(self).consumed().push(rest[0])
                } else {
                    &&& r == Err::<u8, Error>(Error::UnexpectedEof)
                    &&& *final(self) == *old(self)
                }
            }),
    {
        proof {
            use_type_invariant(&*self);
        }
        if self.pos < self.data.len() {
            let b: u8 = self.data[self.pos];
            self.pos = self.pos + 1;
            assert(final(self).remaining() =~= old(self).remaining().skip(1));
            assert(final(self).consumed() =~= old(self).consumed().push(b));
            assert(final(self).buffer() =~= old(self).buffer());
            Ok(b)
        } else {
            Err(Error::UnexpectedEof)
        }
    }

    /// Reads exactly `n` bytes; fails with `UnexpectedEof`, reading
    /// nothing, where fewer are left.
    pub fn read_exact(&mut self, n: usize) -> (r: Result<Vec<u8>, Error>)
        ensures
            final(self).buffer() == old(self).buffer(),
            ({
                let rest = old(self).remaining();
                if n <= rest.len() {
                    &&& r matches Ok(v)
                    &&& v@ == rest.subrange(0, n as int)
                    &&& final(self).remaining() == rest.skip(n as int)
                    &&& final(self).consumed() == old(self).consumed() + v@
                } else {
                    &&& r == Err::<Vec<u8>, Error>(Error::UnexpectedEof)
                    &&& *final(self) == *old(self)
                }
            }),
    {
        proof {
            use_type_invariant(&*self);
        }
        if n <= self.data.len() - self.pos {
            let v = slice_to_vec(self.data.as_slice(), self.pos, self.pos + n);
            self.pos = self.pos + n;
            assert(v@ =~= old(self).remaining().subrange(0, n as int));
            assert(final(self).remaining() =~= old(self).remaining().skip(n as int));
            assert(final(self).consumed() =~= old(self).consumed() + v@);
            assert(final(self).buffer() =~= old(self).buffer());
            Ok(v)
        } else {
            Err(Error::UnexpectedEof)
        }
    }

    /// Reads up to the first `delim` and past it; returns what stands
    /// before it. Fails with `UnexpectedEof`, reading nothing, where no
    /// `delim` is left.
    pub fn read_up_to(&mut self, delim: u8) -> (r: Result<Vec<u8>, Error>)
        ensures
            final(self).buffer() == old(self).buffer(),
            ({
                let rest = old(self).remaining();
                let k = first_index(rest, delim);
                if k < rest.len() {
                    &&& r matches Ok(v)
                    &&& v@ == rest.subrange(0, k)
                    &&& final(self).remaining() == rest.skip(k + 1)
                    &&& final(self).consumed() == old(self).consumed() + v@.push(delim)
                } else {
                    &&& r == Err::<Vec<u8>, Error>(Error::UnexpectedEof)
                    &&& *final(self) == *old(self)
                }
            }),
    {
        proof {
            use_type_invariant(&*self);
        }
        let ghost rest = self.remaining();
        let mut i: usize = self.pos;
        while i < self.data.len()
            invariant
                self.pos <= i <= self.data.len(),
                *self == *old(self),
                rest == self.remaining(),
                forall|j: int| 0 <= j < i - self.pos ==> rest[j] != delim,
            decreases self.data.len() - i,
        {
            if self.data[i] == delim {
                proof {
                    assert(rest[i - self.pos] == delim);
                    lemma_first_index_is(rest, delim, i - self.pos);
                }
                let v = slice_to_vec(self.data.as_slice(), self.pos, i);
                self.pos = i + 1;
                assert(v@ =~= rest.subrange(0, first_index(rest, delim)));
                assert(final(self).remaining() =~= rest.skip(first_index(rest, delim) + 1));
                assert(final(self).consumed() =~= old(self).consumed() + v@.push(delim));
                assert(final(self).buffer() =~= old(self).buffer());
                return Ok(v);
            }
            assert(rest[i - self.pos] == self.data[i as int]);
            i = i + 1;
        }
        proof {
            lemma_first_index_is(rest, delim, rest.len() as int);
        }
        Err(Error::UnexpectedEof)
    }
}

/// Reads from `s` until `delim` is found; returns the content before it.
pub fn read_up_to(s: &mut Cursor, delim: u8) -> (r: Result<Vec<u8>, Error>)
    ensures
        final(s).buffer() == old(s).buffer(),
        ({
            let rest = old(s).remaining();
            let k = first_index(rest, delim);
            if k < rest.len() {
                &&& r matches Ok(v)
                &&& v@ == rest.subrange(0, k)
                &&& final(s).remaining() == rest.skip(k + 1)
                &&& final(s).consumed() == old(s).consumed() + v@.push(delim)
            } else {
                &&& r == Err::<Vec<u8>, Error>(Error::UnexpectedEof)
                &&& *final(s) == *old(s)
            }
        }),
{
    s.read_up_to(delim)
}

/// Reads one byte from `reader`.
pub fn read_byte(reader: &mut Cursor) -> (r: Result<u8, Error>)
    ensures
        final(reader).buffer() == old(reader).buffer(),
        ({
            let rest = old(reader).remaining();
            if rest.len() > 0 {
                &&& r == Ok::<u8, Error>(rest[0])
                &&& final(reader).remaining() == rest.skip(1)
                &&& final(reader).consumed() == old(reader).consumed().push(rest[0])
            } else {
                &&& r == Err::<u8, Error>(Error::UnexpectedEof)
                &&& *final(reader) == *old(reader)
            }
        }),
{
    reader.read_byte()
}

} // verus!
