//! The block buffer: a block-sized store plus a cursor.

use vstd::prelude::*;
use vstd::slice::slice_subrange;
use vstd::arithmetic::div_mod::*;
use crate::padding::{PaddingScheme, padded_block, counts_in_a_byte, zero_pad, pkcs7_pad, ansi_x923_pad, iso7816_pad};
use crate::blocks::{zeros, blocks_of, tail_of, lemma_blocks_concat, lemma_blocks_short, lemma_blocks_single, lemma_tail_len};
use crate::bytes::{copy_into, sub_vec, zero_vec};
use crate::length::{be_bytes, le_bytes, encode_uint};

verus! {

/// Buffer for block processing of data.
///
/// The first `pos` bytes of `buffer` are input that waits for the rest of its
/// block. In keystream mode the bytes from `pos` on are unused keystream.
pub struct BlockBuffer {
    buffer: Vec<u8>,
    pos: usize,
}

/// The blocks that an optional completed leftover block contributes.
pub open spec fn head_blocks(head: Option<Seq<u8>>) -> Seq<Seq<u8>> {
    match head {
        Some(b) => seq![b],
        None => Seq::empty(),
    }
}

/// The view of an optional block.
pub open spec fn opt_view(head: Option<Vec<u8>>) -> Option<Seq<u8>> {
    match head {
        Some(b) => Some(b@),
        None => None,
    }
}

/// How batch dispatch splits `input` when `pending` is buffered: the
/// completed leftover block, if any; the run of whole blocks taken straight
/// from the input; and what stays buffered afterwards.
pub open spec fn batch_split(pending: Seq<u8>, input: Seq<u8>, bs: nat) -> (
    Option<Seq<u8>>,
    Seq<u8>,
    Seq<u8>,
) {
    if input.len() < bs - pending.len() {
        (None, Seq::empty(), pending + input)
    } else {
        let h = if pending.len() == 0 { 0 } else { (bs - pending.len()) as int };
        let rest = input.subrange(h, input.len() as int);
        let head = if pending.len() == 0 { None } else { Some(pending + input.subrange(0, h)) };
        (head, rest.subrange(0, ((rest.len() / bs) * bs) as int), tail_of(rest, bs))
    }
}

/// Batch and single-block dispatch agree: the completed leftover block
/// followed by the blocks of the batch run are exactly the blocks of the
/// buffered bytes and the input together, and both keep the same tail.
pub proof fn lemma_batch_matches_single(pending: Seq<u8>, input: Seq<u8>, bs: nat)
    requires
        pending.len() < bs,
    ensures
        ({
            let (head, run, rest) = batch_split(pending, input, bs);
            &&& head_blocks(head) + blocks_of(run, bs) == blocks_of(pending + input, bs)
            &&& rest == tail_of(pending + input, bs)
        }),
{
    let s = pending + input;
    let (head, run, rest) = batch_split(pending, input, bs);
    if input.len() < bs - pending.len() {
        lemma_blocks_short(s, bs);
        lemma_blocks_short(run, bs);
        assert(head_blocks(head) + blocks_of(run, bs) =~= blocks_of(s, bs));
    } else {
        let h = if pending.len() == 0 { 0 } else { (bs - pending.len()) as int };
        let r = input.subrange(h, input.len() as int);
        let m = ((r.len() / bs) * bs) as int;
        let len = r.len() as int;
        let d = bs as int;
        lemma_fundamental_div_mod(len, d);
        assert(m == len - len % d) by (nonlinear_arith)
            requires
                m == (len / d) * d,
                len == d * (len / d) + len % d,
        ;
        lemma_fundamental_div_mod_converse_mod(m, d, len / d, 0);
        let left = r.subrange(m, r.len() as int);
        assert(r =~= run + left);
        lemma_blocks_concat(run, left, bs);
        lemma_blocks_short(left, bs);
        lemma_blocks_concat(run, Seq::empty(), bs);
        assert(run + Seq::<u8>::empty() =~= run);
        assert(blocks_of(r, bs) =~= blocks_of(run, bs));
        assert(tail_of(r, bs) == left);
        if pending.len() == 0 {
            assert(s =~= r);
            assert(head_blocks(head) + blocks_of(run, bs) =~= blocks_of(s, bs));
        } else {
            let first = pending + input.subrange(0, h);
            assert(s =~= first + r);
            lemma_fundamental_div_mod_converse_mod(first.len() as int, bs as int, 1, 0);
            lemma_blocks_concat(first, r, bs);
            lemma_blocks_single(first, bs);
            assert(head_blocks(head) + blocks_of(run, bs) =~= blocks_of(s, bs));
        }
    }
}

/// The final blocks that length padding emits: the buffered bytes, a `0x80`
/// delimiter and zeros, with `suffix` at the very end of the last block; a
/// second block is needed when the suffix does not fit after the delimiter.
pub open spec fn pad_blocks(pending: Seq<u8>, bs: nat, suffix: Seq<u8>) -> Seq<Seq<u8>> {
    let first = pending.push(0x80u8) + zeros((bs - pending.len() - 1) as nat);
    if bs - pending.len() - 1 < suffix.len() {
        seq![first, zeros((bs - suffix.len()) as nat) + suffix]
    } else {
        seq![first.subrange(0, bs - suffix.len()) + suffix]
    }
}

/// Length padding of a message `msg`, with a 64-bit big-endian length field
/// `len`, emits one block when the tail of the message leaves room for the
/// delimiter and the field (`msg.len() % bs <= bs - 9`) and two otherwise.
/// Each emitted block is `bs` bytes long; the first starts with the tail of the
/// message and the delimiter `0x80`; the last ends with the eight bytes of
/// `len`; every byte between the delimiter and the length field is zero.
pub proof fn lemma_length_padding(msg: Seq<u8>, bs: nat, len: u64)
    requires
        bs >= 8,
    ensures
        ({
            let tail = tail_of(msg, bs);
            let blocks = pad_blocks(tail, bs, be_bytes(len as nat, 8));
            let last = blocks.last();
            let field = (bs - 8) as int;
            &&& tail.len() == msg.len() % bs
            &&& blocks.len() == (if msg.len() % bs <= bs - 9 { 1nat } else { 2nat })
            &&& forall|k: int| 0 <= k < blocks.len() ==> (#[trigger] blocks[k]).len() == bs
            &&& blocks[0].subrange(0, tail.len() as int) == tail
            &&& blocks[0][tail.len() as int] == 0x80u8
            &&& last.subrange(field, bs as int) == be_bytes(len as nat, 8)
            &&& blocks.len() == 1 ==> forall|i: int| tail.len() < i < field ==> blocks[0][i] == 0u8
            &&& blocks.len() == 2 ==> forall|i: int| tail.len() < i < bs ==> blocks[0][i] == 0u8
            &&& blocks.len() == 2 ==> forall|i: int| 0 <= i < field ==> last[i] == 0u8
        }),
{
    let tail = tail_of(msg, bs);
    lemma_tail_len(msg, bs);
    lemma_mod_bound(msg.len() as int, bs as int);
    let suffix = be_bytes(len as nat, 8);
    let blocks = pad_blocks(tail, bs, suffix);
    let first = tail.push(0x80u8) + zeros((bs - tail.len() - 1) as nat);
    let field = (bs - 8) as int;
    if bs - tail.len() - 1 < 8 {
        assert(blocks[1].subrange(field, bs as int) =~= suffix);
        assert(first.subrange(0, tail.len() as int) =~= tail);
    } else {
        assert(blocks[0].subrange(field, bs as int) =~= suffix);
        assert(blocks[0].subrange(0, tail.len() as int) =~= tail);
    }
}

/// `a` with each byte XORed with the byte of `k` at the same index.
pub open spec fn xor_bytes(a: Seq<u8>, k: Seq<u8>) -> Seq<u8> {
    Seq::new(a.len(), |i: int| a[i] ^ k[i])
}

/// How many fresh keystream blocks it takes to XOR `n` bytes when `avail`
/// bytes of keystream are left over.
pub open spec fn blocks_needed(avail: nat, n: nat, bs: nat) -> nat {
    if n <= avail {
        0
    } else {
        let d = (n - avail) as nat;
        d / bs + if d % bs == 0 { 0nat } else { 1nat }
    }
}

/// XOR streaming undoes itself: XORing data with a keystream, then XORing
/// the result with the same keystream, gives back the data.
pub proof fn lemma_xor_round_trip(data: Seq<u8>, stream: Seq<u8>)
    requires
        data.len() <= stream.len(),
    ensures
        xor_bytes(xor_bytes(data, stream), stream) == data,
{
    assert forall|i: int| 0 <= i < data.len() implies #[trigger] xor_bytes(xor_bytes(data, stream), stream)[i] == data[i] by {
        let a = data[i];
        let k = stream[i];
        assert((a ^ k) ^ k == a) by (bit_vector);
    }
    assert(xor_bytes(xor_bytes(data, stream), stream) =~= data);
}

/// Cuts `run`, whose length is a whole number of blocks, into its blocks.
fn split_run(run: &[u8], bs: usize) -> (r: Vec<Vec<u8>>)
    requires
        bs > 0,
        run@.len() % (bs as nat) == 0,
    ensures
        r.deep_view() == blocks_of(run@, bs as nat),
{
    let n = run.len();
    let mut out: Vec<Vec<u8>> = Vec::new();
    let mut start: usize = 0;
    let ghost b = bs as nat;
    proof {
        lemma_fundamental_div_mod(n as int, bs as int);
        assert(0 * (bs as int) == 0);
        assert(0 <= n as int / bs as int) by {
            lemma_div_pos_is_pos(n as int, bs as int);
        }
    }
    while start < n
        invariant
            n == run@.len(),
            bs > 0,
            b == bs as nat,
            n as int == (n as int / bs as int) * bs as int,
            start as int == out@.len() * bs,
            out@.len() <= n as int / bs as int,
            forall|i: int| 0 <= i < out@.len()
                ==> #[trigger] out.deep_view()[i] == run@.subrange(i * b, i * b + b),
        decreases n - start,
    {
        let ghost k = out@.len() as int;
        let ghost q = n as int / bs as int;
        assert(k + 1 <= q && (k + 1) * bs <= n) by (nonlinear_arith)
            requires
                start as int == k * bs,
                start < n,
                n as int == q * bs,
                bs > 0,
                k <= q,
        ;
        assert((k + 1) * bs == k * bs + bs) by (nonlinear_arith);
        let block = sub_vec(run, start, bs);
        assert(block.deep_view() =~= block@);
        let ghost before = out.deep_view();
        out.push(block);
        start = start + bs;
        proof {
            assert forall|i: int| 0 <= i < out@.len()
                implies #[trigger] out.deep_view()[i] == run@.subrange(i * b, i * b + b) by {
                if i < k {
                    assert(out.deep_view()[i] == before[i]);
                }
            }
        }
    }
    proof {
        let q = n as int / bs as int;
        let k = out@.len() as int;
        assert(k == q) by (nonlinear_arith)
            requires
                k * bs >= n,
                n == q * bs,
                k <= q,
                bs > 0,
        ;
        assert(out.deep_view() =~= blocks_of(run@, b));
    }
    out
}

impl BlockBuffer {
    /// The fixed block size.
    pub closed spec fn block_size(&self) -> nat {
        self.buffer@.len()
    }

    /// The cursor.
    pub closed spec fn cursor(&self) -> nat {
        self.pos as nat
    }

    /// Buffered input that waits for the rest of its block.
    pub closed spec fn pending(&self) -> Seq<u8> {
        self.buffer@.subrange(0, self.pos as int)
    }

    /// Keystream left over from earlier XOR streaming, in the order it is used.
    pub closed spec fn keystream(&self) -> Seq<u8> {
        if self.pos == 0 {
            Seq::empty()
        } else {
            self.buffer@.subrange(self.pos as int, self.buffer@.len() as int)
        }
    }

    /// The cursor lies inside the block, and the block is not empty.
    pub closed spec fn wf(&self) -> bool {
        self.pos < self.buffer@.len()
    }

    /// The cursor invariant: in a well-formed buffer the cursor lies in
    /// `0 .. block_size`, and the buffered input is exactly `cursor` bytes
    /// long. Every operation that changes the buffer keeps it well formed.
    pub proof fn lemma_cursor_in_block(&self)
        requires
            self.wf(),
        ensures
            0 <= self.cursor() < self.block_size(),
            self.pending().len() == self.cursor(),
            self.keystream().len() < self.block_size(),
    {
    }

    /// An empty buffer for blocks of `block_size` bytes.
    pub fn new(block_size: usize) -> (r: Self)
        requires
            block_size > 0,
        ensures
            r.wf(),
            r.block_size() == block_size,
            r.cursor() == 0,
            r.pending() == Seq::<u8>::empty(),
            r.keystream() == Seq::<u8>::empty(),
    {
        let r = BlockBuffer { buffer: zero_vec(block_size), pos: 0 };
        assert(r.pending() =~= Seq::<u8>::empty());
        r
    }

    /// Returns size of the internal buffer in bytes.
    pub fn size(&self) -> (r: usize)
        ensures
            r == self.block_size(),
    {
        self.buffer.len()
    }

    /// Returns the number of bytes still free in the current block.
    pub fn remaining(&self) -> (r: usize)
        requires
            self.wf(),
        ensures
            r == self.block_size() - self.cursor(),
            r > 0,
    {
        self.buffer.len() - self.pos
    }

    /// Resets the buffer by setting the cursor to zero, discarding buffered data.
    pub fn reset(&mut self)
        requires
            old(self).wf(),
        ensures
            final(self).wf(),
            final(self).block_size() == old(self).block_size(),
            final(self).cursor() == 0,
            final(self).pending() == Seq::<u8>::empty(),
            final(self).keystream() == Seq::<u8>::empty(),
    {
        self.pos = 0;
        assert(self.pending() =~= Seq::<u8>::empty());
    }

    /// Returns the current cursor position.
    pub fn get_pos(&self) -> (r: usize)
        requires
            self.wf(),
        ensures
            r == self.cursor(),
            r < self.block_size(),
            r == self.pending().len(),
    {
        self.pos
    }

    /// Digests `input`: completes and returns the buffered leftover block (if
    /// there is one and the input completes it), returns the following whole
    /// blocks as one run of the input itself, and buffers the rest.
    pub fn digest_blocks<'a>(&mut self, input: &'a [u8]) -> (r: (Option<Vec<u8>>, &'a [u8]))
        requires
            old(self).wf(),
        ensures
            final(self).wf(),
            final(self).block_size() == old(self).block_size(),
            ({
                let (head, run, rest) = batch_split(old(self).pending(), input@, old(self).block_size());
                &&& opt_view(r.0) == head
                &&& r.1@ == run
                &&& final(self).pending() == rest
            }),
    {
        let ghost p = self.pending();
        let bs = self.buffer.len();
        let pos = self.pos;
        let r = bs - pos;
        let n = input.len();
        if n < r {
            copy_into(&mut self.buffer, pos, input, 0, n);
            self.pos = pos + n;
            assert(self.pending() =~= p + input@);
            let empty = slice_subrange(input, 0, 0);
            assert(empty@ =~= Seq::<u8>::empty());
            return (None, empty);
        }
        let mut head: Option<Vec<u8>> = None;
        let mut h: usize = 0;
        if pos != 0 {
            copy_into(&mut self.buffer, pos, input, 0, r);
            let block = sub_vec(self.buffer.as_slice(), 0, bs);
            assert(block@ =~= p + input@.subrange(0, r as int));
            head = Some(block);
            h = r;
        }
        let rest_len = n - h;
        let rem = rest_len % bs;
        proof {
            lemma_mod_decreases(rest_len as nat, bs as nat);
        }
        let run_len = rest_len - rem;
        let run = slice_subrange(input, h, h + run_len);
        copy_into(&mut self.buffer, 0, input, h + run_len, rem);
        self.pos = rem;
        proof {
            let rest = input@.subrange(h as int, n as int);
            let b = bs as nat;
            lemma_fundamental_div_mod(rest.len() as int, b as int);
            assert((rest.len() / b) * b == b * (rest.len() / b)) by (nonlinear_arith);
            assert(run@ =~= rest.subrange(0, ((rest.len() / b) * b) as int));
            assert(self.pending() =~= tail_of(rest, b));
        }
        (head, run)
    }

    /// Digests `input`: returns, in stream order, every whole block of the
    /// buffered bytes followed by `input`, and buffers what is left.
    pub fn digest_block(&mut self, input: &[u8]) -> (r: Vec<Vec<u8>>)
        requires
            old(self).wf(),
        ensures
            final(self).wf(),
            final(self).block_size() == old(self).block_size(),
            r.deep_view() == blocks_of(old(self).pending() + input@, old(self).block_size()),
            final(self).pending() == tail_of(old(self).pending() + input@, old(self).block_size()),
    {
        let ghost p = self.pending();
        let bs = self.buffer.len();
        let (head, run) = self.digest_blocks(input);
        proof {
            lemma_batch_matches_single(p, input@, bs as nat);
            let d = bs as int;
            if input@.len() >= bs - p.len() {
                let h = if p.len() == 0 { 0 } else { (bs - p.len()) as int };
                let full = input@.subrange(h, input@.len() as int);
                let fl = full.len() as int;
                let b = bs as nat;
                assert(batch_split(p, input@, b).1 == full.subrange(0, ((full.len() / b) * b) as int));
                assert((full.len() / b) * b == (fl / d) * d);
                lemma_fundamental_div_mod(fl, d);
                lemma_div_pos_is_pos(fl, d);
                assert(0 <= (fl / d) * d <= fl) by (nonlinear_arith)
                    requires
                        fl == d * (fl / d) + fl % d,
                        0 <= fl % d,
                        0 <= fl / d,
                        d > 0,
                ;
                assert(run@.len() == (fl / d) * d);
                lemma_fundamental_div_mod_converse_mod(run@.len() as int, d, fl / d, 0);
                assert(run@.len() % (bs as nat) == 0);
            } else {
                assert(run@.len() == 0);
                lemma_fundamental_div_mod_converse_mod(0, d, 0, 0);
                assert(run@.len() % (bs as nat) == 0);
            }
        }
        let tail_blocks = split_run(run, bs);
        let mut out: Vec<Vec<u8>> = Vec::new();
        match head {
            Some(block) => {
                assert(block.deep_view() =~= block@);
                out.push(block);
            },
            None => {},
        }
        let ghost first = out.deep_view();
        let mut blocks = tail_blocks;
        out.append(&mut blocks);
        proof {
            assert(out.deep_view() =~= first + tail_blocks.deep_view());
            assert(first =~= head_blocks(opt_view(head)));
        }
        out
    }

    /// The number of fresh keystream blocks that `xor_data` needs to XOR
    /// `n` bytes, after the keystream left over in the buffer.
    pub fn keystream_blocks_needed(&self, n: usize) -> (r: usize)
        requires
            self.wf(),
        ensures
            r == blocks_needed(self.keystream().len(), n as nat, self.block_size()),
    {
        let bs = self.buffer.len();
        let avail = if self.pos == 0 { 0 } else { bs - self.pos };
        if n <= avail {
            0
        } else {
            let d = n - avail;
            proof {
                lemma_fundamental_div_mod(d as int, bs as int);
                lemma_mod_bound(d as int, bs as int);
                lemma_div_pos_is_pos(d as int, bs as int);
                let q = d as int / bs as int;
                let r = d as int % bs as int;
                if r != 0 {
                    assert(q + 1 <= d) by (nonlinear_arith)
                        requires
                            d as int == bs * q + r,
                            0 < r < bs,
                            0 <= q,
                    ;
                }
            }
            d / bs + if d % bs == 0 { 0 } else { 1 }
        }
    }

    /// XORs `data` in place with keystream: first the keystream left over in
    /// the buffer, then `fresh`, which must hold exactly the number of blocks
    /// that `keystream_blocks_needed` gives. The keystream that `data` does not
    /// use stays in the buffer for the next call. Returns false, and changes
    /// nothing, when `fresh` has the wrong length.
    pub fn xor_data(&mut self, data: &mut [u8], fresh: &[u8]) -> (ok: bool)
        requires
            old(self).wf(),
        ensures
            final(self).wf(),
            final(self).block_size() == old(self).block_size(),
            ok == (fresh@.len() == old(self).block_size() * blocks_needed(
                old(self).keystream().len(),
                old(data)@.len(),
                old(self).block_size(),
            )),
            !ok ==> *final(self) == *old(self) && final(data)@ == old(data)@,
            ok ==> ({
                let stream = old(self).keystream() + fresh@;
                &&& final(data)@ == xor_bytes(old(data)@, stream)
                &&& final(self).keystream() == stream.subrange(old(data)@.len() as int, stream.len() as int)
            }),
    {
        let ghost ks = self.keystream();
        let ghost b = self.block_size();
        let bs = self.buffer.len();
        let pos = self.pos;
        let n = data.len();
        let avail = if pos == 0 { 0 } else { bs - pos };
        let needed = self.keystream_blocks_needed(n);
        let fl = fresh.len();
        proof {
            lemma_fundamental_div_mod(fl as int, bs as int);
            lemma_mod_bound(fl as int, bs as int);
            let q = fl as int / bs as int;
            assert(fl as int == bs * q + fl as int % bs as int);
            assert((fl % bs == 0 && fl / bs == needed) <==> fl == b * needed) by {
                if fl == b * needed {
                    lemma_fundamental_div_mod_converse_mod(fl as int, bs as int, needed as int, 0);
                    lemma_fundamental_div_mod_converse_div(fl as int, bs as int, needed as int, 0);
                    assert(needed * bs == b * needed) by (nonlinear_arith)
                        requires
                            b == bs,
                    ;
                }
                if fl % bs == 0 && fl / bs == needed {
                    assert(fl == b * needed) by (nonlinear_arith)
                        requires
                            fl as int == bs * q + fl as int % bs as int,
                            fl as int % bs as int == 0,
                            q == needed,
                            b == bs,
                    ;
                }
            }
        }
        if fl % bs != 0 || fl / bs != needed {
            return false;
        }
        let ghost stream = ks + fresh@;
        proof {
            let d = n as int - avail as int;
            if n > avail {
                lemma_fundamental_div_mod(d, bs as int);
                lemma_mod_bound(d, bs as int);
                let q = d / bs as int;
                let r = d % bs as int;
                assert(ks.len() == avail);
                assert(needed as int == q + if r == 0 { 0int } else { 1int });
                assert(fl as int == (q + if r == 0 { 0int } else { 1int }) * bs) by (nonlinear_arith)
                    requires
                        fl == b * needed,
                        b == bs,
                        needed as int == q + if r == 0 { 0int } else { 1int },
                ;
                assert(d <= fl && fl - d < bs) by (nonlinear_arith)
                    requires
                        d == bs * q + r,
                        0 <= r < bs,
                        fl as int == (q + if r == 0 { 0int } else { 1int }) * bs,
                ;
            } else {
                assert(fl == 0) by (nonlinear_arith)
                    requires
                        fl == b * needed,
                        needed == 0,
                ;
            }
        }
        let mut i: usize = 0;
        while i < n
            invariant
                n == old(data)@.len(),
                data@.len() == n,
                i <= n,
                pos == self.pos,
                bs == self.buffer@.len(),
                pos < bs,
                avail == ks.len(),
                n <= stream.len(),
                stream == ks + fresh@,
                fl == fresh@.len(),
                ks == (if pos == 0 { Seq::<u8>::empty() } else { self.buffer@.subrange(pos as int, bs as int) }),
                forall|j: int| 0 <= j < i ==> data@[j] == old(data)@[j] ^ stream[j],
                forall|j: int| i <= j < n ==> data@[j] == old(data)@[j],
            decreases n - i,
        {
            let kb = if i < avail { self.buffer[pos + i] } else { fresh[i - avail] };
            assert(kb == stream[i as int]);
            let v = data[i] ^ kb;
            data[i] = v;
            i = i + 1;
        }
        assert(data@ =~= xor_bytes(old(data)@, stream));
        if n < avail {
            self.pos = pos + n;
        } else if fl == 0 {
            self.pos = 0;
        } else {
            let used = n - avail;
            assert(fl >= bs) by (nonlinear_arith)
                requires
                    fl == b * needed,
                    fl != 0,
                    b == bs,
            ;
            copy_into(&mut self.buffer, 0, fresh, fl - bs, bs);
            let left = fl - used;
            self.pos = if left == 0 { 0 } else { bs - left };
        }
        assert(self.keystream() =~= stream.subrange(n as int, stream.len() as int));
        true
    }

    /// Pads the buffered message tail with `scheme` to a whole block, empties
    /// the buffer, and returns that block for one last block operation.
    pub fn pad_with(&mut self, scheme: PaddingScheme) -> (r: Vec<u8>)
        requires
            old(self).wf(),
            counts_in_a_byte(scheme) ==> old(self).block_size() <= 255,
        ensures
            final(self).wf(),
            final(self).block_size() == old(self).block_size(),
            final(self).cursor() == 0,
            final(self).pending() == Seq::<u8>::empty(),
            r@ == padded_block(old(self).pending(), old(self).block_size(), scheme),
    {
        let ghost p = self.pending();
        let ghost b = self.block_size();
        let pos = self.pos;
        match scheme {
            PaddingScheme::Zero => zero_pad(&mut self.buffer, pos),
            PaddingScheme::Pkcs7 => pkcs7_pad(&mut self.buffer, pos),
            PaddingScheme::AnsiX923 => ansi_x923_pad(&mut self.buffer, pos),
            PaddingScheme::Iso7816 => iso7816_pad(&mut self.buffer, pos),
        }
        assert(self.buffer@ =~= padded_block(p, b, scheme));
        self.pos = 0;
        assert(self.pending() =~= Seq::<u8>::empty());
        sub_vec(self.buffer.as_slice(), 0, self.buffer.len())
    }

    /// Ends the message: appends `0x80`, zeros and `suffix`, returns the one
    /// or two final blocks, and empties the buffer.
    fn digest_pad(&mut self, suffix: &[u8]) -> (r: Vec<Vec<u8>>)
        requires
            old(self).wf(),
            suffix@.len() <= old(self).block_size(),
        ensures
            final(self).wf(),
            final(self).block_size() == old(self).block_size(),
            final(self).cursor() == 0,
            final(self).pending() == Seq::<u8>::empty(),
            final(self).keystream() == Seq::<u8>::empty(),
            r.deep_view() == pad_blocks(old(self).pending(), old(self).block_size(), suffix@),
    {
        let ghost p = self.pending();
        let ghost b = self.block_size();
        let pos = self.pos;
        let bs = self.buffer.len();
        self.buffer[pos] = 0x80u8;
        let mut j: usize = pos + 1;
        while j < bs
            invariant
                pos < bs,
                pos + 1 <= j <= bs,
                self.buffer@.len() == bs,
                self.pos == pos,
                b == bs,
                forall|k: int| 0 <= k < pos ==> self.buffer@[k] == p[k],
                self.buffer@[pos as int] == 0x80u8,
                forall|k: int| pos < k < j ==> self.buffer@[k] == 0u8,
            decreases bs - j,
        {
            self.buffer[j] = 0u8;
            j = j + 1;
        }
        let ghost first = p.push(0x80u8) + zeros((b - p.len() - 1) as nat);
        assert(self.buffer@ =~= first);
        let sl = suffix.len();
        let n = bs - sl;
        let mut out: Vec<Vec<u8>> = Vec::new();
        if bs - pos - 1 < sl {
            let block = sub_vec(self.buffer.as_slice(), 0, bs);
            assert(block.deep_view() =~= block@);
            assert(block@ =~= first);
            out.push(block);
            let mut last = zero_vec(bs);
            copy_into(&mut last, n, suffix, 0, sl);
            assert(last@ =~= zeros((b - sl) as nat) + suffix@);
            assert(last.deep_view() =~= last@);
            out.push(last);
            assert(out.deep_view() =~= seq![first, zeros((b - sl) as nat) + suffix@]);
        } else {
            copy_into(&mut self.buffer, n, suffix, 0, sl);
            let block = sub_vec(self.buffer.as_slice(), 0, bs);
            assert(block@ =~= first.subrange(0, b - sl) + suffix@);
            assert(block.deep_view() =~= block@);
            out.push(block);
            assert(out.deep_view() =~= seq![first.subrange(0, b - sl) + suffix@]);
        }
        self.pos = 0;
        assert(self.pending() =~= Seq::<u8>::empty());
        assert(out.deep_view() =~= pad_blocks(p, b, suffix@));
        out
    }

    /// Pads the message with `0x80`, zeros and the 64-bit length `data_len`
    /// in big-endian byte order, and returns the final blocks.
    pub fn len64_padding_be(&mut self, data_len: u64) -> (r: Vec<Vec<u8>>)
        requires
            old(self).wf(),
            old(self).block_size() >= 8,
        ensures
            final(self).wf(),
            final(self).block_size() == old(self).block_size(),
            final(self).pending() == Seq::<u8>::empty(),
            final(self).keystream() == Seq::<u8>::empty(),
            r.deep_view() == pad_blocks(old(self).pending(), old(self).block_size(), be_bytes(data_len as nat, 8)),
    {
        let suffix = encode_uint(data_len as u128, 8, true);
        self.digest_pad(suffix.as_slice())
    }

    /// Pads the message with `0x80`, zeros and the 64-bit length `data_len`
    /// in little-endian byte order, and returns the final blocks.
    pub fn len64_padding_le(&mut self, data_len: u64) -> (r: Vec<Vec<u8>>)
        requires
            old(self).wf(),
            old(self).block_size() >= 8,
        ensures
            final(self).wf(),
            final(self).block_size() == old(self).block_size(),
            final(self).pending() == Seq::<u8>::empty(),
            final(self).keystream() == Seq::<u8>::empty(),
            r.deep_view() == pad_blocks(old(self).pending(), old(self).block_size(), le_bytes(data_len as nat, 8)),
    {
        let suffix = encode_uint(data_len as u128, 8, false);
        self.digest_pad(suffix.as_slice())
    }

    /// Pads the message with `0x80`, zeros and the 128-bit length `data_len`
    /// in big-endian byte order, and returns the final blocks.
    pub fn len128_padding_be(&mut self, data_len: u128) -> (r: Vec<Vec<u8>>)
        requires
            old(self).wf(),
            old(self).block_size() >= 16,
        ensures
            final(self).wf(),
            final(self).block_size() == old(self).block_size(),
            final(self).pending() == Seq::<u8>::empty(),
            final(self).keystream() == Seq::<u8>::empty(),
            r.deep_view() == pad_blocks(old(self).pending(), old(self).block_size(), be_bytes(data_len as nat, 16)),
    {
        let suffix = encode_uint(data_len, 16, true);
        self.digest_pad(suffix.as_slice())
    }
}

} // verus!
