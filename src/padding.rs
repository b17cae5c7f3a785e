//! Block-cipher padding schemes, applied to the last partial block through
//! the `block-padding` crate.

use vstd::prelude::*;
use crate::blocks::zeros;

verus! {

/// A padding scheme for the final partial block of a block-cipher message.
#[derive(Clone, Copy, Debug)]
pub enum PaddingScheme {
    /// Fill with zero bytes.
    Zero,
    /// Fill with bytes equal to the number of bytes added (PKCS#7).
    Pkcs7,
    /// Fill with zeros, then a last byte equal to the number of bytes added.
    AnsiX923,
    /// `0x80`, then zeros.
    Iso7816,
}

/// Whether the scheme stores the padding length in a byte, which limits the
/// block size to 255.
pub open spec fn counts_in_a_byte(scheme: PaddingScheme) -> bool {
    match scheme {
        PaddingScheme::Pkcs7 | PaddingScheme::AnsiX923 => true,
        _ => false,
    }
}

/// The block that `scheme` makes of the message tail `pending` in a block of
/// `bs` bytes.
pub open spec fn padded_block(pending: Seq<u8>, bs: nat, scheme: PaddingScheme) -> Seq<u8> {
    let k = (bs - pending.len()) as nat;
    match scheme {
        PaddingScheme::Zero => pending + zeros(k),
        PaddingScheme::Pkcs7 => pending + Seq::new(k, |_i: int| k as u8),
        PaddingScheme::AnsiX923 => pending + zeros((k - 1) as nat) + seq![k as u8],
        PaddingScheme::Iso7816 => pending + seq![0x80u8] + zeros((k - 1) as nat),
    }
}

/// Relies on `block_padding::ZeroPadding::raw_pad`: every byte from `pos` on
/// becomes zero.
#[verifier::external_body]
pub(crate) fn zero_pad(block: &mut Vec<u8>, pos: usize)
    requires
        pos <= old(block)@.len(),
    ensures
        final(block)@ == old(block)@.subrange(0, pos as int) + zeros((old(block)@.len() - pos) as nat),
{
    <block_padding::ZeroPadding as block_padding::RawPadding>::raw_pad(block.as_mut_slice(), pos)
}

/// Relies on `block_padding::Pkcs7::raw_pad`: every byte from `pos` on
/// becomes the number of bytes from `pos` to the end.
#[verifier::external_body]
pub(crate) fn pkcs7_pad(block: &mut Vec<u8>, pos: usize)
    requires
        pos < old(block)@.len(),
        old(block)@.len() <= 255,
    ensures
        final(block)@ == old(block)@.subrange(0, pos as int) + Seq::new(
            (old(block)@.len() - pos) as nat,
            |_i: int| (old(block)@.len() - pos) as u8,
        ),
{
    <block_padding::Pkcs7 as block_padding::RawPadding>::raw_pad(block.as_mut_slice(), pos)
}

/// Relies on `block_padding::AnsiX923::raw_pad`: the bytes from `pos` on
/// become zero, but the last, which becomes the number of bytes from `pos` to
/// the end.
#[verifier::external_body]
pub(crate) fn ansi_x923_pad(block: &mut Vec<u8>, pos: usize)
    requires
        pos < old(block)@.len(),
        old(block)@.len() <= 255,
    ensures
        final(block)@ == old(block)@.subrange(0, pos as int) + zeros((old(block)@.len() - pos - 1) as nat)
            + seq![(old(block)@.len() - pos) as u8],
{
    <block_padding::AnsiX923 as block_padding::RawPadding>::raw_pad(block.as_mut_slice(), pos)
}

/// Relies on `block_padding::Iso7816::raw_pad`: the byte at `pos` becomes
/// `0x80` and those after it zero.
#[verifier::external_body]
pub(crate) fn iso7816_pad(block: &mut Vec<u8>, pos: usize)
    requires
        pos < old(block)@.len(),
    ensures
        final(block)@ == old(block)@.subrange(0, pos as int) + seq![0x80u8] + zeros(
            (old(block)@.len() - pos - 1) as nat,
        ),
{
    <block_padding::Iso7816 as block_padding::RawPadding>::raw_pad(block.as_mut_slice(), pos)
}

} // verus!
