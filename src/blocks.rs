//! The mathematical model of cutting a byte stream into blocks.

use vstd::prelude::*;
use vstd::arithmetic::div_mod::*;

verus! {

/// `n` zero bytes.
pub open spec fn zeros(n: nat) -> Seq<u8> {
    Seq::new(n, |_i: int| 0u8)
}

/// The whole blocks of `s`, in order, each `bs` bytes long.
pub open spec fn blocks_of(s: Seq<u8>, bs: nat) -> Seq<Seq<u8>> {
    Seq::new(s.len() / bs, |i: int| s.subrange(i * bs, i * bs + bs))
}

/// What is left of `s` after its whole blocks.
pub open spec fn tail_of(s: Seq<u8>, bs: nat) -> Seq<u8> {
    s.subrange(((s.len() / bs) * bs) as int, s.len() as int)
}

/// A prefix whose length is a whole number of blocks cuts cleanly: the blocks
/// of `a + b` are those of `a` followed by those of `b`, and the tail is `b`'s.
pub proof fn lemma_blocks_concat(a: Seq<u8>, b: Seq<u8>, bs: nat)
    requires
        bs > 0,
        a.len() % bs == 0,
    ensures
        blocks_of(a + b, bs) == blocks_of(a, bs) + blocks_of(b, bs),
        tail_of(a + b, bs) == tail_of(b, bs),
{
    let q = a.len() / bs;
    let qb = b.len() / bs;
    let d = bs as int;
    lemma_fundamental_div_mod(a.len() as int, d);
    assert(a.len() == q * bs);
    lemma_fundamental_div_mod(b.len() as int, d);
    let rb = b.len() % bs;
    assert((a + b).len() == (q + qb) * bs + rb) by (nonlinear_arith)
        requires
            a.len() == q * bs,
            b.len() == qb * bs + rb,
    ;
    lemma_fundamental_div_mod_converse((a + b).len() as int, d, (q + qb) as int, rb as int);
    let s = a + b;
    let lhs = blocks_of(s, bs);
    let rhs = blocks_of(a, bs) + blocks_of(b, bs);
    assert(lhs.len() == rhs.len());
    assert forall|i: int| 0 <= i < lhs.len() implies lhs[i] == rhs[i] by {
        if i < q {
            assert(i * bs + bs <= q * bs) by (nonlinear_arith)
                requires
                    i < q,
                    0 <= i,
            ;
            assert(0 <= i * bs) by (nonlinear_arith)
                requires
                    0 <= i,
            ;
            assert(s.subrange(i * bs, i * bs + bs) =~= a.subrange(i * bs, i * bs + bs));
        } else {
            let j = i - q;
            assert(i * bs == j * bs + q * bs) by (nonlinear_arith)
                requires
                    j == i - q,
            ;
            assert(j * bs + bs <= qb * bs) by (nonlinear_arith)
                requires
                    0 <= j < qb,
            ;
            assert(0 <= j * bs) by (nonlinear_arith)
                requires
                    0 <= j,
            ;
            assert(s.subrange(i * bs, i * bs + bs) =~= b.subrange(j * bs, j * bs + bs));
        }
    }
    assert(lhs =~= rhs);
    assert((q + qb) * bs == q * bs + qb * bs) by (nonlinear_arith);
    assert(qb * bs <= b.len()) by (nonlinear_arith)
        requires
            b.len() == qb * bs + rb,
            rb >= 0,
    ;
    assert(tail_of(s, bs) =~= tail_of(b, bs));
}

/// A sequence shorter than one block has no whole block, and is its own tail.
pub proof fn lemma_blocks_short(s: Seq<u8>, bs: nat)
    requires
        s.len() < bs,
    ensures
        blocks_of(s, bs) == Seq::<Seq<u8>>::empty(),
        tail_of(s, bs) == s,
{
    assert(s.len() as int / bs as int == 0) by {
        lemma_fundamental_div_mod_converse(s.len() as int, bs as int, 0, s.len() as int);
    }
    assert(blocks_of(s, bs) =~= Seq::<Seq<u8>>::empty());
    assert(tail_of(s, bs) =~= s);
}

/// A sequence of exactly one block is that block, with nothing left over.
pub proof fn lemma_blocks_single(s: Seq<u8>, bs: nat)
    requires
        s.len() == bs,
        bs > 0,
    ensures
        blocks_of(s, bs) == seq![s],
        tail_of(s, bs) == Seq::<u8>::empty(),
{
    lemma_fundamental_div_mod_converse(s.len() as int, bs as int, 1, 0);
    assert(s.subrange(0, bs as int) =~= s);
    assert(blocks_of(s, bs) =~= seq![s]);
    assert(tail_of(s, bs) =~= Seq::<u8>::empty());
}

/// The tail is as long as the remainder of the length by the block size.
pub proof fn lemma_tail_len(s: Seq<u8>, bs: nat)
    requires
        bs > 0,
    ensures
        tail_of(s, bs).len() == s.len() % bs,
{
    lemma_fundamental_div_mod(s.len() as int, bs as int);
    assert((s.len() / bs) * bs == bs * (s.len() / bs)) by (nonlinear_arith);
}

/// Feeding a stream in two pieces emits the same blocks, in the same order,
/// and leaves the same tail as feeding it whole: the blocks of the buffered
/// bytes and `a`, then those of the tail left by that and `b`, are the blocks
/// of the buffered bytes, `a` and `b` together.
pub proof fn lemma_split_equivalence(pending: Seq<u8>, a: Seq<u8>, b: Seq<u8>, bs: nat)
    requires
        bs > 0,
    ensures
        blocks_of(pending + a, bs) + blocks_of(tail_of(pending + a, bs) + b, bs)
            == blocks_of(pending + a + b, bs),
        tail_of(tail_of(pending + a, bs) + b, bs) == tail_of(pending + a + b, bs),
{
    let s = pending + a;
    let k = ((s.len() / bs) * bs) as int;
    let len = s.len() as int;
    let d = bs as int;
    lemma_fundamental_div_mod(len, d);
    assert(k == len - len % d) by (nonlinear_arith)
        requires
            k == (len / d) * d,
            len == d * (len / d) + len % d,
    ;
    lemma_fundamental_div_mod_converse_mod(k, d, len / d, 0);
    let whole = s.subrange(0, k);
    let t = tail_of(s, bs);
    assert(s =~= whole + t);
    lemma_blocks_concat(whole, t, bs);
    lemma_blocks_short(t, bs);
    assert(blocks_of(s, bs) =~= blocks_of(whole, bs));
    assert(pending + a + b =~= whole + (t + b));
    lemma_blocks_concat(whole, t + b, bs);
}

/// The chunks laid end to end.
pub open spec fn concat_all(chunks: Seq<Seq<u8>>) -> Seq<u8>
    decreases chunks.len(),
{
    if chunks.len() == 0 {
        Seq::empty()
    } else {
        concat_all(chunks.drop_last()) + chunks.last()
    }
}

/// Feeding `chunks` one call at a time, starting with `pending` buffered:
/// all blocks emitted, in order, and what stays buffered at the end.
pub open spec fn feed(pending: Seq<u8>, chunks: Seq<Seq<u8>>, bs: nat) -> (Seq<Seq<u8>>, Seq<u8>)
    decreases chunks.len(),
{
    if chunks.len() == 0 {
        (Seq::empty(), pending)
    } else {
        let (emitted, left) = feed(pending, chunks.drop_last(), bs);
        (emitted + blocks_of(left + chunks.last(), bs), tail_of(left + chunks.last(), bs))
    }
}

/// However a stream is cut into chunks, feeding the chunks one call at a time
/// emits the same blocks, in the same order, and leaves the same tail as
/// feeding the whole stream in one call.
pub proof fn lemma_chunked_equivalence(pending: Seq<u8>, chunks: Seq<Seq<u8>>, bs: nat)
    requires
        pending.len() < bs,
    ensures
        feed(pending, chunks, bs) == (
            blocks_of(pending + concat_all(chunks), bs),
            tail_of(pending + concat_all(chunks), bs),
        ),
    decreases chunks.len(),
{
    if chunks.len() == 0 {
        assert(pending + concat_all(chunks) =~= pending);
        lemma_blocks_short(pending, bs);
    } else {
        let rest = chunks.drop_last();
        lemma_chunked_equivalence(pending, rest, bs);
        lemma_split_equivalence(pending, concat_all(rest), chunks.last(), bs);
        assert(pending + concat_all(rest) + chunks.last() =~= pending + concat_all(chunks));
    }
}

} // verus!
