//! ASN.1 DER tags, errors, lengths and the `SEQUENCE` type.

use vstd::prelude::*;
use crate::bytes::sub_vec;
use crate::decoder::Decoder;

verus! {

/// The largest length of a DER value that this library handles.
pub const MAX_LENGTH: usize = 65535;

/// ASN.1 tags used by this library.
#[derive(Clone, Copy, Debug, PartialEq, Eq, Structural)]
pub enum Tag {
    /// `OBJECT IDENTIFIER`
    ObjectIdentifier,
    /// `SEQUENCE`
    Sequence,
}

/// What went wrong while encoding or decoding DER.
#[derive(Clone, Copy, Debug, PartialEq, Eq, Structural)]
pub enum ErrorKind {
    /// A value of the given type is longer than the library handles.
    Length { tag: Tag },
    /// A length computation went past the largest length.
    Overflow,
    /// The input ended early.
    Truncated,
    /// A tag other than the expected one was found.
    UnexpectedTag { expected: Tag },
    /// The contents of a value of the given type are malformed.
    Value { tag: Tag },
    /// Input was left over after decoding: `decoded` bytes were read and
    /// `remaining` were not.
    TrailingData { decoded: usize, remaining: usize },
}

/// Number of bytes of the DER length field for a value of `len` bytes.
pub open spec fn length_field_len(len: nat) -> nat {
    if len < 0x80 {
        1
    } else if len < 0x100 {
        2
    } else {
        3
    }
}

/// Total DER length of a value of `len` bytes: tag, length field, contents.
pub open spec fn tlv_len(len: nat) -> nat {
    1 + length_field_len(len) + len
}

/// The sum of a sequence of lengths.
pub open spec fn sum_lens(lens: Seq<usize>) -> nat
    decreases lens.len(),
{
    if lens.len() == 0 {
        0
    } else {
        sum_lens(lens.drop_last()) + lens.last() as nat
    }
}

/// The DER length of a value with `len` bytes of contents, tag and length
/// field included; `Overflow` when it is larger than `MAX_LENGTH`.
pub fn tlv_encoded_len(len: usize) -> (r: Result<usize, ErrorKind>)
    ensures
        tlv_len(len as nat) <= MAX_LENGTH ==> r == Ok::<usize, ErrorKind>(tlv_len(len as nat) as usize),
        tlv_len(len as nat) > MAX_LENGTH ==> r == Err::<usize, ErrorKind>(ErrorKind::Overflow),
{
    if len > MAX_LENGTH - 4 {
        return Err(ErrorKind::Overflow);
    }
    let field: usize = if len < 0x80 { 1 } else if len < 0x100 { 2 } else { 3 };
    let total = 1 + field + len;
    if total > MAX_LENGTH {
        Err(ErrorKind::Overflow)
    } else {
        Ok(total)
    }
}

/// The DER length of a `SEQUENCE` whose members have the DER lengths
/// `encoded_lens`, including the `SEQUENCE` tag and length field.
/// `Overflow` when the members together, or the whole, exceed `MAX_LENGTH`.
pub fn encoded_len(encoded_lens: &[usize]) -> (r: Result<usize, ErrorKind>)
    ensures
        sum_lens(encoded_lens@) <= MAX_LENGTH && tlv_len(sum_lens(encoded_lens@)) <= MAX_LENGTH
            ==> r == Ok::<usize, ErrorKind>(tlv_len(sum_lens(encoded_lens@)) as usize),
        !(sum_lens(encoded_lens@) <= MAX_LENGTH && tlv_len(sum_lens(encoded_lens@)) <= MAX_LENGTH)
            ==> r == Err::<usize, ErrorKind>(ErrorKind::Overflow),
{
    match encoded_len_inner(encoded_lens) {
        Ok(inner) => tlv_encoded_len(inner),
        Err(e) => Err(e),
    }
}

/// The sum of `encoded_lens`; `Overflow` when it exceeds `MAX_LENGTH`.
pub(crate) fn encoded_len_inner(encoded_lens: &[usize]) -> (r: Result<usize, ErrorKind>)
    ensures
        sum_lens(encoded_lens@) <= MAX_LENGTH ==> r == Ok::<usize, ErrorKind>(sum_lens(encoded_lens@) as usize),
        sum_lens(encoded_lens@) > MAX_LENGTH ==> r == Err::<usize, ErrorKind>(ErrorKind::Overflow),
{
    let n = encoded_lens.len();
    let mut sum: usize = 0;
    let mut i: usize = 0;
    while i < n
        invariant
            n == encoded_lens@.len(),
            i <= n,
            sum as nat == sum_lens(encoded_lens@.subrange(0, i as int)),
            sum <= MAX_LENGTH,
        decreases n - i,
    {
        let x = encoded_lens[i];
        proof {
            let s = encoded_lens@.subrange(0, i + 1);
            assert(s.drop_last() =~= encoded_lens@.subrange(0, i as int));
        }
        if x > MAX_LENGTH - sum {
            proof {
                lemma_sum_prefix_grows(encoded_lens@, i as int + 1);
            }
            return Err(ErrorKind::Overflow);
        }
        sum = sum + x;
        i = i + 1;
    }
    assert(encoded_lens@.subrange(0, n as int) =~= encoded_lens@);
    Ok(sum)
}

/// Sums over longer prefixes are no smaller.
proof fn lemma_sum_prefix_grows(s: Seq<usize>, i: int)
    requires
        0 <= i <= s.len(),
    ensures
        sum_lens(s.subrange(0, i)) <= sum_lens(s),
    decreases s.len() - i,
{
    if i < s.len() {
        lemma_sum_prefix_grows(s, i + 1);
        assert(s.subrange(0, i + 1).drop_last() =~= s.subrange(0, i));
    } else {
        assert(s.subrange(0, i) =~= s);
    }
}

/// ASN.1 `SEQUENCE`: the contents of a sequence, not yet decoded.
#[derive(Clone, Debug)]
pub struct Sequence {
    inner: Vec<u8>,
}

impl View for Sequence {
    type V = Seq<u8>;

    closed spec fn view(&self) -> Seq<u8> {
        self.inner@
    }
}

impl Sequence {
    /// A `SEQUENCE` with contents `slice`; a `Length` error when the contents
    /// are longer than `MAX_LENGTH`.
    pub fn new(slice: &[u8]) -> (r: Result<Sequence, ErrorKind>)
        ensures
            slice@.len() <= MAX_LENGTH ==> r is Ok && r->Ok_0@ == slice@,
            slice@.len() > MAX_LENGTH ==> r == Err::<Sequence, ErrorKind>(ErrorKind::Length { tag: Tag::Sequence }),
    {
        if slice.len() > MAX_LENGTH {
            Err(ErrorKind::Length { tag: Tag::Sequence })
        } else {
            Ok(Sequence { inner: sub_vec(slice, 0, slice.len()) })
        }
    }

    /// The contents of the sequence.
    pub fn as_bytes(&self) -> (r: &[u8])
        ensures
            r@ == self@,
    {
        self.inner.as_slice()
    }

    /// Decodes the members of the sequence with `f`, on a decoder over the
    /// contents. The result is `f`'s error if it fails, `TrailingData` if it
    /// leaves contents unread, and its value otherwise.
    pub fn decode_nested<T, F: FnOnce(&mut Decoder) -> Result<T, ErrorKind>>(&self, f: F) -> (r: Result<T, ErrorKind>)
        requires
            forall|d: &mut Decoder| #[trigger] f.requires((d,)),
        ensures
            r is Ok ==> exists|d: &mut Decoder|
                #![trigger f.ensures((d,), Ok::<T, ErrorKind>(r->Ok_0))]
                d.remaining() == self@ && f.ensures((d,), Ok::<T, ErrorKind>(r->Ok_0))
                    && final(d).remaining().len() == 0,
            r is Err ==> exists|d: &mut Decoder, res: Result<T, ErrorKind>|
                #![trigger f.ensures((d,), res)]
                d.remaining() == self@ && f.ensures((d,), res) && match res {
                    Err(e) => r->Err_0 == e,
                    Ok(_) => final(d).remaining().len() > 0 && r->Err_0 == (ErrorKind::TrailingData {
                        decoded: final(d).position() as usize,
                        remaining: final(d).remaining().len() as usize,
                    }),
                },
    {
        let mut seq_decoder = Decoder::new(self.as_bytes());
        let result = match f(&mut seq_decoder) {
            Ok(v) => v,
            Err(e) => {
                return Err(e);
            },
        };
        seq_decoder.finish(result)
    }

    /// The DER length of the whole `SEQUENCE`, tag and length field included.
    pub fn encoded_len(&self) -> (r: Result<usize, ErrorKind>)
        ensures
            tlv_len(self@.len()) <= MAX_LENGTH ==> r == Ok::<usize, ErrorKind>(tlv_len(self@.len()) as usize),
            tlv_len(self@.len()) > MAX_LENGTH ==> r == Err::<usize, ErrorKind>(ErrorKind::Overflow),
    {
        tlv_encoded_len(self.inner.len())
    }
}

} // verus!
