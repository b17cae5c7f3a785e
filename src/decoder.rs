//! A cursor over DER input, for decoding the members of a `SEQUENCE`.

use vstd::prelude::*;
use crate::bytes::sub_vec;
use crate::der::{ErrorKind, Tag};
use crate::oid::{ObjectIdentifier, der_bytes, valid_arcs};

verus! {

/// Reads DER values one after another from a byte string.
pub struct Decoder {
    bytes: Vec<u8>,
    pos: usize,
}

impl Decoder {
    /// The cursor never passes the end of the input.
    #[verifier::type_invariant]
    spec fn cursor_in_input(&self) -> bool {
        self.pos <= self.bytes@.len()
    }

    /// The input not yet read.
    pub closed spec fn remaining(&self) -> Seq<u8> {
        self.bytes@.subrange(self.pos as int, self.bytes@.len() as int)
    }

    /// The number of bytes read so far.
    pub closed spec fn position(&self) -> nat {
        self.pos as nat
    }

    /// A decoder at the start of `bytes`.
    pub fn new(bytes: &[u8]) -> (r: Decoder)
        ensures
            r.remaining() == bytes@,
            r.position() == 0,
    {
        let r = Decoder { bytes: sub_vec(bytes, 0, bytes.len()), pos: 0 };
        assert(r.remaining() =~= bytes@);
        r
    }

    /// The number of bytes not yet read.
    pub fn remaining_len(&self) -> (r: usize)
        ensures
            r == self.remaining().len(),
    {
        proof {
            use_type_invariant(self);
        }
        self.bytes.len() - self.pos
    }

    /// Whether all input has been read.
    pub fn is_finished(&self) -> (r: bool)
        ensures
            r == (self.remaining().len() == 0),
    {
        self.remaining_len() == 0
    }

    /// Reads one byte; `Truncated`, reading nothing, at the end of the input.
    pub fn read_byte(&mut self) -> (r: Result<u8, ErrorKind>)
        ensures
            old(self).remaining().len() == 0 ==> r == Err::<u8, ErrorKind>(ErrorKind::Truncated)
                && final(self).remaining() == old(self).remaining(),
            old(self).remaining().len() > 0 ==> r == Ok::<u8, ErrorKind>(old(self).remaining()[0])
                && final(self).remaining() == old(self).remaining().subrange(1, old(self).remaining().len() as int),
            final(self).position() == old(self).position() + (if r is Ok { 1nat } else { 0nat }),
    {
        proof {
            use_type_invariant(&*self);
        }
        if self.pos >= self.bytes.len() {
            return Err(ErrorKind::Truncated);
        }
        let b = self.bytes[self.pos];
        self.pos = self.pos + 1;
        assert(self.remaining() =~= old(self).remaining().subrange(1, old(self).remaining().len() as int));
        Ok(b)
    }

    /// Decodes one DER `OBJECT IDENTIFIER` at the cursor. On success the
    /// identifier's encoding is exactly the bytes read.
    pub fn oid(&mut self) -> (r: Result<ObjectIdentifier, ErrorKind>)
        ensures
            r is Ok ==> {
                let enc = der_bytes(r->Ok_0@);
                &&& valid_arcs(r->Ok_0@)
                &&& enc.len() <= old(self).remaining().len()
                &&& old(self).remaining().subrange(0, enc.len() as int) == enc
                &&& final(self).remaining() == old(self).remaining().subrange(
                    enc.len() as int,
                    old(self).remaining().len() as int,
                )
            },
            r is Err ==> final(self).remaining() == old(self).remaining(),
            old(self).remaining().len() == 0 ==> r == Err::<ObjectIdentifier, ErrorKind>(ErrorKind::Truncated),
    {
        proof {
            use_type_invariant(&*self);
        }
        let avail = self.bytes.len() - self.pos;
        if avail == 0 {
            return Err(ErrorKind::Truncated);
        }
        if self.bytes[self.pos] != 0x06u8 {
            return Err(ErrorKind::UnexpectedTag { expected: Tag::ObjectIdentifier });
        }
        if avail < 2 {
            return Err(ErrorKind::Truncated);
        }
        let len = self.bytes[self.pos + 1] as usize;
        if len + 2 > avail {
            return Err(ErrorKind::Truncated);
        }
        let tlv = sub_vec(self.bytes.as_slice(), self.pos, len + 2);
        let r = ObjectIdentifier::from_bytes(tlv.as_slice());
        match r {
            Ok(o) => {
                self.pos = self.pos + len + 2;
                assert(tlv@ =~= old(self).remaining().subrange(0, len + 2));
                assert(self.remaining() =~= old(self).remaining().subrange(len + 2, old(self).remaining().len() as int));
                Ok(o)
            },
            Err(e) => Err(e),
        }
    }

    /// Ends decoding with `value`: `Ok(value)` when all input has been read,
    /// else `TrailingData` with the bytes read and the bytes left.
    pub fn finish<T>(self, value: T) -> (r: Result<T, ErrorKind>)
        ensures
            self.remaining().len() == 0 ==> r == Ok::<T, ErrorKind>(value),
            self.remaining().len() > 0 ==> r == Err::<T, ErrorKind>(
                ErrorKind::TrailingData {
                    decoded: self.position() as usize,
                    remaining: self.remaining().len() as usize,
                },
            ),
    {
        let left = self.remaining_len();
        if left == 0 {
            Ok(value)
        } else {
            Err(ErrorKind::TrailingData { decoded: self.pos, remaining: left })
        }
    }
}

} // verus!
