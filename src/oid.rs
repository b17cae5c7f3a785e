//! ASN.1 `OBJECT IDENTIFIER`: arcs, their BER contents and DER encoding.

use vstd::prelude::*;
use crate::der::{ErrorKind, Tag};

verus! {

/// The base-128 digits of `x`, least significant first.
pub open spec fn septets(x: nat) -> Seq<u8>
    decreases x,
{
    if x < 128 {
        seq![x as u8]
    } else {
        seq![(x % 128) as u8] + septets(x / 128)
    }
}

/// `x` in base 128, most significant digit first, every digit but the last
/// with its high bit set.
pub open spec fn base128(x: nat) -> Seq<u8> {
    let d = septets(x);
    Seq::new(
        d.len(),
        |i: int|
            if i < d.len() - 1 {
                (d[d.len() - 1 - i] + 0x80) as u8
            } else {
                d[d.len() - 1 - i]
            },
    )
}

/// The arcs form an object identifier: at least two, the first at most 2,
/// the second below 40 under the first two roots, and the first two packed
/// into one number that fits in 32 bits.
pub open spec fn valid_arcs(arcs: Seq<u32>) -> bool {
    &&& arcs.len() >= 2
    &&& arcs[0] <= 2
    &&& arcs[0] < 2 ==> arcs[1] < 40
    &&& 40 * arcs[0] + arcs[1] <= u32::MAX
}

/// The base-128 encodings of `arcs[i..]`, end to end.
pub open spec fn arcs_body(arcs: Seq<u32>, i: nat) -> Seq<u8>
    decreases arcs.len() - i,
{
    if i >= arcs.len() {
        Seq::empty()
    } else {
        base128(arcs[i as int] as nat) + arcs_body(arcs, i + 1)
    }
}

/// The BER contents of an object identifier: the first two arcs packed as
/// `40 * first + second`, then each further arc.
pub open spec fn ber_body(arcs: Seq<u32>) -> Seq<u8> {
    base128((40 * arcs[0] + arcs[1]) as nat) + arcs_body(arcs, 2)
}

/// The DER encoding: tag `0x06`, a one-byte length, the contents.
pub open spec fn der_bytes(arcs: Seq<u32>) -> Seq<u8> {
    seq![0x06u8, ber_body(arcs).len() as u8] + ber_body(arcs)
}

/// Appends the base-128 encoding of `x` to `out`.
fn push_base128(out: &mut Vec<u8>, x: u32)
    ensures
        final(out)@ == old(out)@ + base128(x as nat),
{
    let mut digits: Vec<u8> = Vec::new();
    let mut v: u32 = x;
    while v >= 128
        invariant
            septets(x as nat) == digits@ + septets(v as nat),
            forall|i: int| 0 <= i < digits@.len() ==> digits@[i] < 128,
        decreases v,
    {
        let ghost before = digits@;
        digits.push((v % 128) as u8);
        assert(digits@ + septets((v / 128) as nat) =~= before + septets(v as nat));
        v = v / 128;
    }
    let ghost before = digits@;
    digits.push(v as u8);
    assert(digits@ =~= before + septets(v as nat));
    let ghost d = septets(x as nat);
    let ghost enc = base128(x as nat);
    let k = digits.len();
    let mut j: usize = 0;
    while j < k
        invariant
            k == digits@.len(),
            d == digits@,
            enc == base128(x as nat),
            d == septets(x as nat),
            forall|i: int| 0 <= i < digits@.len() ==> digits@[i] < 128,
            j <= k,
            out@ == old(out)@ + enc.subrange(0, j as int),
        decreases k - j,
    {
        let digit = digits[k - 1 - j];
        let byte = if j + 1 < k { digit + 0x80 } else { digit };
        out.push(byte);
        assert(enc.subrange(0, j + 1) =~= enc.subrange(0, j as int).push(byte));
        j = j + 1;
    }
    assert(enc.subrange(0, k as int) =~= enc);
}

/// ASN.1 `OBJECT IDENTIFIER`, held as its arcs.
#[derive(Clone, Debug, PartialEq, Eq)]
pub struct ObjectIdentifier {
    arcs: Vec<u32>,
}

impl View for ObjectIdentifier {
    type V = Seq<u32>;

    closed spec fn view(&self) -> Seq<u32> {
        self.arcs@
    }
}

/// Whether `arcs` form an object identifier.
pub fn arcs_are_valid(arcs: &[u32]) -> (r: bool)
    ensures
        r == valid_arcs(arcs@),
{
    if arcs.len() < 2 || arcs[0] > 2 || (arcs[0] < 2 && arcs[1] >= 40) {
        return false;
    }
    arcs[1] <= u32::MAX - 40 * arcs[0]
}

impl ObjectIdentifier {
    /// The object identifier with arcs `arcs`.
    pub fn new(arcs: &[u32]) -> (r: ObjectIdentifier)
        requires
            valid_arcs(arcs@),
        ensures
            r@ == arcs@,
    {
        let mut v: Vec<u32> = Vec::new();
        let mut i: usize = 0;
        while i < arcs.len()
            invariant
                i <= arcs@.len(),
                v@ == arcs@.subrange(0, i as int),
            decreases arcs@.len() - i,
        {
            v.push(arcs[i]);
            i = i + 1;
            assert(v@ =~= arcs@.subrange(0, i as int));
        }
        assert(v@ =~= arcs@);
        ObjectIdentifier { arcs: v }
    }

    /// The arcs.
    pub fn arcs(&self) -> (r: &[u32])
        ensures
            r@ == self@,
    {
        self.arcs.as_slice()
    }

    /// The BER contents of the identifier.
    pub fn ber_bytes(&self) -> (r: Vec<u8>)
        requires
            valid_arcs(self@),
        ensures
            r@ == ber_body(self@),
    {
        let mut out: Vec<u8> = Vec::new();
        let first = 40 * self.arcs[0] + self.arcs[1];
        push_base128(&mut out, first);
        let n = self.arcs.len();
        let mut i: usize = 2;
        assert(out@ + arcs_body(self@, 2) =~= ber_body(self@));
        while i < n
            invariant
                n == self@.len(),
                2 <= i <= n,
                out@ + arcs_body(self@, i as nat) == ber_body(self@),
            decreases n - i,
        {
            let ghost before = out@;
            push_base128(&mut out, self.arcs[i]);
            assert(out@ + arcs_body(self@, (i + 1) as nat) =~= before + arcs_body(self@, i as nat));
            i = i + 1;
        }
        assert(out@ =~= out@ + arcs_body(self@, n as nat));
        out
    }

    /// Writes the DER encoding into the start of `buf` and returns it. A
    /// `Length` error when the contents take 128 bytes or more, `Overflow`
    /// when `buf` is too short; `buf` is unchanged on error.
    pub fn encode_to_slice(&self, buf: &mut [u8]) -> (r: Result<Vec<u8>, ErrorKind>)
        requires
            valid_arcs(self@),
        ensures
            ber_body(self@).len() >= 128 ==> r == Err::<Vec<u8>, ErrorKind>(ErrorKind::Length { tag: Tag::ObjectIdentifier }),
            ber_body(self@).len() < 128 && old(buf)@.len() < ber_body(self@).len() + 2
                ==> r == Err::<Vec<u8>, ErrorKind>(ErrorKind::Overflow),
            r is Err ==> final(buf)@ == old(buf)@,
            ber_body(self@).len() < 128 && old(buf)@.len() >= ber_body(self@).len() + 2 ==> {
                &&& r is Ok
                &&& r->Ok_0@ == der_bytes(self@)
                &&& final(buf)@ == der_bytes(self@) + old(buf)@.subrange(
                    ber_body(self@).len() + 2int,
                    old(buf)@.len() as int,
                )
            },
    {
        let body = self.ber_bytes();
        let bl = body.len();
        if bl >= 128 {
            return Err(ErrorKind::Length { tag: Tag::ObjectIdentifier });
        }
        if buf.len() < bl + 2 {
            return Err(ErrorKind::Overflow);
        }
        let mut out: Vec<u8> = Vec::new();
        out.push(0x06u8);
        out.push(bl as u8);
        let mut i: usize = 0;
        while i < bl
            invariant
                bl == body@.len(),
                i <= bl,
                out@ == seq![0x06u8, bl as u8] + body@.subrange(0, i as int),
            decreases bl - i,
        {
            out.push(body[i]);
            i = i + 1;
            assert(out@ =~= seq![0x06u8, bl as u8] + body@.subrange(0, i as int));
        }
        assert(out@ =~= der_bytes(self@));
        let total = bl + 2;
        let mut j: usize = 0;
        while j < total
            invariant
                total == out@.len(),
                total <= buf@.len(),
                buf@.len() == old(buf)@.len(),
                j <= total,
                forall|k: int| 0 <= k < j ==> buf@[k] == out@[k],
                forall|k: int| j <= k < buf@.len() ==> buf@[k] == old(buf)@[k],
            decreases total - j,
        {
            buf[j] = out[j];
            j = j + 1;
        }
        assert(buf@ =~= out@ + old(buf)@.subrange(total as int, old(buf)@.len() as int));
        Ok(out)
    }

    /// Decodes a DER-encoded object identifier. What it returns is valid and
    /// encodes back to exactly `bytes`. Empty or one-byte input is `Truncated`;
    /// a first byte other than `0x06` is an `UnexpectedTag`.
    pub fn from_bytes(bytes: &[u8]) -> (r: Result<ObjectIdentifier, ErrorKind>)
        ensures
            r is Ok ==> valid_arcs(r->Ok_0@) && der_bytes(r->Ok_0@) == bytes@,
            bytes@.len() == 0 ==> r == Err::<ObjectIdentifier, ErrorKind>(ErrorKind::Truncated),
            bytes@.len() > 0 && bytes@[0] != 0x06u8 ==> r == Err::<ObjectIdentifier, ErrorKind>(
                ErrorKind::UnexpectedTag { expected: Tag::ObjectIdentifier },
            ),
            bytes@.len() == 1 && bytes@[0] == 0x06u8 ==> r == Err::<ObjectIdentifier, ErrorKind>(ErrorKind::Truncated),
    {
        let n = bytes.len();
        if n == 0 {
            return Err(ErrorKind::Truncated);
        }
        if bytes[0] != 0x06u8 {
            return Err(ErrorKind::UnexpectedTag { expected: Tag::ObjectIdentifier });
        }
        if n < 2 {
            return Err(ErrorKind::Truncated);
        }
        let len = bytes[1] as usize;
        if len >= 0x80 || len + 2 != n {
            return Err(ErrorKind::Length { tag: Tag::ObjectIdentifier });
        }
        let mut arcs: Vec<u32> = Vec::new();
        let mut i: usize = 2;
        while i < n
            invariant
                n == bytes@.len(),
                2 <= i <= n,
                bytes@[0] == 0x06u8,
            decreases n - i,
        {
            let ghost start = i;
            let mut v: u32 = 0;
            let mut more = true;
            while more
                invariant
                    n == bytes@.len(),
                    2 <= i <= n,
                    more ==> i < n,
                    more || i > start,
                    start <= i,
                    bytes@[0] == 0x06u8,
                decreases n - i,
            {
                let b = bytes[i];
                i = i + 1;
                if v > 0x1ff_ffff {
                    return Err(ErrorKind::Value { tag: Tag::ObjectIdentifier });
                }
                let low = b & 0x7f;
                assert(b & 0x7f <= 127) by (bit_vector);
                v = v * 128 + low as u32;
                if b & 0x80 == 0 {
                    more = false;
                } else if i >= n {
                    return Err(ErrorKind::Truncated);
                }
            }
            if arcs.len() == 0 {
                if v < 40 {
                    arcs.push(0);
                    arcs.push(v);
                } else if v < 80 {
                    arcs.push(1);
                    arcs.push(v - 40);
                } else {
                    arcs.push(2);
                    arcs.push(v - 80);
                }
            } else {
                arcs.push(v);
            }
        }
        if !arcs_are_valid(arcs.as_slice()) {
            return Err(ErrorKind::Value { tag: Tag::ObjectIdentifier });
        }
        let oid = ObjectIdentifier { arcs };
        let mut scratch: Vec<u8> = Vec::new();
        let mut k: usize = 0;
        while k < n
            invariant
                k <= n,
                scratch@.len() == k,
            decreases n - k,
        {
            scratch.push(0u8);
            k = k + 1;
        }
        let encoded = match oid.encode_to_slice(scratch.as_mut_slice()) {
            Ok(e) => e,
            Err(e) => {
                return Err(ErrorKind::Value { tag: Tag::ObjectIdentifier });
            },
        };
        if encoded.len() != n {
            return Err(ErrorKind::Value { tag: Tag::ObjectIdentifier });
        }
        let mut m: usize = 0;
        while m < n
            invariant
                n == bytes@.len(),
                n >= 2,
                bytes@[0] == 0x06u8,
                n == encoded@.len(),
                m <= n,
                forall|q: int| 0 <= q < m ==> encoded@[q] == bytes@[q],
            decreases n - m,
        {
            if encoded[m] != bytes[m] {
                return Err(ErrorKind::Value { tag: Tag::ObjectIdentifier });
            }
            m = m + 1;
        }
        assert(encoded@ =~= bytes@);
        Ok(oid)
    }
}

} // verus!
