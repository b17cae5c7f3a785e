//! Fixed-width integer encodings used for message-length suffixes.

use vstd::prelude::*;
use vstd::arithmetic::power::{pow, lemma_pow_positive};
use vstd::arithmetic::div_mod::lemma_div_denominator;
use crate::bytes::zero_vec;

verus! {

/// Byte `i` (counting from the least significant) of `x` in base 256.
pub open spec fn byte_at(x: nat, i: nat) -> u8 {
    ((x as int / pow(256, i)) % 256) as u8
}

/// The `n`-byte big-endian encoding of `x`, keeping its low `8 * n` bits.
pub open spec fn be_bytes(x: nat, n: nat) -> Seq<u8> {
    Seq::new(n, |i: int| byte_at(x, (n - 1 - i) as nat))
}

/// The `n`-byte little-endian encoding of `x`, keeping its low `8 * n` bits.
pub open spec fn le_bytes(x: nat, n: nat) -> Seq<u8> {
    Seq::new(n, |i: int| byte_at(x, i as nat))
}

/// Where digit `j` of an `n`-byte encoding goes.
spec fn slot(n: int, j: int, big_endian: bool) -> int {
    if big_endian {
        n - 1 - j
    } else {
        j
    }
}

proof fn lemma_next_digit(x: nat, i: nat)
    ensures
        x as int / pow(256, i + 1) == (x as int / pow(256, i)) / 256,
{
    reveal(pow);
    lemma_pow_positive(256, i);
    assert(pow(256, i + 1) == 256 * pow(256, i));
    lemma_div_denominator(x as int, pow(256, i), 256);
    assert(pow(256, i) * 256 == 256 * pow(256, i));
}

/// Encodes the low `8 * n` bits of `x` in `n` bytes, most or least
/// significant byte first.
pub fn encode_uint(x: u128, n: usize, big_endian: bool) -> (r: Vec<u8>)
    ensures
        big_endian ==> r@ == be_bytes(x as nat, n as nat),
        !big_endian ==> r@ == le_bytes(x as nat, n as nat),
{
    let mut r = zero_vec(n);
    let mut v: u128 = x;
    let mut i: usize = 0;
    proof {
        reveal(pow);
        assert(pow(256, 0) == 1);
    }
    while i < n
        invariant
            i <= n,
            r@.len() == n,
            v as int == x as int / pow(256, i as nat),
            forall|j: int|
                0 <= j < i ==> #[trigger] r@[slot(n as int, j, big_endian)]
                    == byte_at(x as nat, j as nat),
        decreases n - i,
    {
        let idx = if big_endian { n - 1 - i } else { i };
        r[idx] = (v % 256) as u8;
        proof {
            lemma_next_digit(x as nat, i as nat);
            assert forall|j: int| 0 <= j < i + 1 implies #[trigger] r@[slot(n as int, j, big_endian)]
                == byte_at(x as nat, j as nat) by {
                if j < i {
                    assert(slot(n as int, j, big_endian) != idx);
                }
            }
        }
        v = v / 256;
        i = i + 1;
    }
    proof {
        if big_endian {
            assert forall|k: int| 0 <= k < n implies r@[k] == be_bytes(x as nat, n as nat)[k] by {
                let j = n - 1 - k;
                assert(r@[slot(n as int, j, big_endian)] == byte_at(x as nat, j as nat));
            }
            assert(r@ =~= be_bytes(x as nat, n as nat));
        } else {
            assert forall|k: int| 0 <= k < n implies r@[k] == le_bytes(x as nat, n as nat)[k] by {
                assert(r@[slot(n as int, k, big_endian)] == byte_at(x as nat, k as nat));
            }
            assert(r@ =~= le_bytes(x as nat, n as nat));
        }
    }
    r
}

} // verus!
