use block_buffer::buffer::BlockBuffer;
use block_buffer::padding::PaddingScheme;

fn bytes(n: usize, seed: u8) -> Vec<u8> {
    (0..n).map(|i| (i as u8).wrapping_mul(31).wrapping_add(seed)).collect()
}

fn blocks_of(data: &[u8], bs: usize) -> Vec<Vec<u8>> {
    data.chunks_exact(bs).map(|c| c.to_vec()).collect()
}

#[test]
fn scenario_seventy_then_fifty_eight_then_pad() {
    let data = bytes(128, 7);
    let mut buf = BlockBuffer::new(64);
    let first = buf.digest_block(&data[..70]);
    assert_eq!(first, vec![data[..64].to_vec()]);
    assert_eq!(buf.get_pos(), 6);
    let second = buf.digest_block(&data[70..]);
    assert_eq!(second, vec![data[64..128].to_vec()]);
    assert_eq!(buf.get_pos(), 0);
    let last = buf.len64_padding_be(128);
    assert_eq!(last.len(), 1);
    let mut expected = vec![0u8; 64];
    expected[0] = 0x80;
    expected[56..].copy_from_slice(&128u64.to_be_bytes());
    assert_eq!(last[0], expected);
    assert_eq!(buf.get_pos(), 0);
}

#[test]
fn split_feeding_matches_whole() {
    let data = bytes(300, 3);
    let mut whole = BlockBuffer::new(16);
    let all = whole.digest_block(&data);
    for cut in [0usize, 1, 15, 16, 17, 40, 299, 300] {
        let mut split = BlockBuffer::new(16);
        let mut got = split.digest_block(&data[..cut]);
        got.extend(split.digest_block(&data[cut..]));
        assert_eq!(got, all);
        assert_eq!(split.get_pos(), whole.get_pos());
    }
    assert_eq!(all, blocks_of(&data[..288], 16));
    assert_eq!(whole.get_pos(), 12);
}

#[test]
fn batch_matches_single() {
    let data = bytes(100, 9);
    for lead in [0usize, 3, 9] {
        let mut single = BlockBuffer::new(10);
        let mut batch = BlockBuffer::new(10);
        single.digest_block(&data[..lead]);
        batch.digest_block(&data[..lead]);
        let expected = single.digest_block(&data[lead..]);
        let (head, run) = batch.digest_blocks(&data[lead..]);
        assert_eq!(run.len() % 10, 0);
        let mut got: Vec<Vec<u8>> = head.into_iter().collect();
        got.extend(blocks_of(run, 10));
        assert_eq!(got, expected);
        assert_eq!(batch.get_pos(), single.get_pos());
    }
}

#[test]
fn batch_run_is_part_of_the_input() {
    let data = bytes(45, 1);
    let mut buf = BlockBuffer::new(8);
    buf.digest_block(&data[..3]);
    let (head, run) = buf.digest_blocks(&data[3..]);
    let mut first = data[..3].to_vec();
    first.extend_from_slice(&data[3..8]);
    assert_eq!(head, Some(first));
    assert_eq!(run, &data[8..40]);
    assert_eq!(buf.get_pos(), 5);
}

#[test]
fn cursor_stays_inside_the_block() {
    let bs = 32;
    for len in [0usize, bs - 1, bs, bs + 1, 3 * bs, 3 * bs + 5] {
        let mut buf = BlockBuffer::new(bs);
        let out = buf.digest_block(&bytes(len, 2));
        assert_eq!(out.len(), len / bs);
        assert_eq!(buf.get_pos(), len % bs);
        assert!(buf.get_pos() < buf.size());
        assert_eq!(buf.remaining(), bs - len % bs);
    }
}

#[test]
fn empty_input_is_a_no_op() {
    let mut buf = BlockBuffer::new(8);
    buf.digest_block(&[1, 2, 3]);
    assert!(buf.digest_block(&[]).is_empty());
    assert_eq!(buf.get_pos(), 3);
    let (head, run) = buf.digest_blocks(&[]);
    assert!(head.is_none());
    assert!(run.is_empty());
    assert_eq!(buf.get_pos(), 3);
}

#[test]
fn exact_fill_flushes_once() {
    let mut buf = BlockBuffer::new(8);
    buf.digest_block(&[1, 2, 3]);
    let out = buf.digest_block(&[4, 5, 6, 7, 8]);
    assert_eq!(out, vec![vec![1, 2, 3, 4, 5, 6, 7, 8]]);
    assert_eq!(buf.get_pos(), 0);
}

#[test]
fn reset_discards_leftover() {
    let mut buf = BlockBuffer::new(8);
    buf.digest_block(&[1, 2, 3]);
    buf.reset();
    assert_eq!(buf.get_pos(), 0);
    assert_eq!(buf.digest_block(&[9; 8]), vec![vec![9u8; 8]]);
}

#[test]
fn padding_needs_two_blocks_when_suffix_does_not_fit() {
    for (len, count) in [(0usize, 1usize), (55, 1), (56, 2), (63, 2)] {
        let data = bytes(len, 4);
        let mut buf = BlockBuffer::new(64);
        buf.digest_block(&data);
        let out = buf.len64_padding_be(len as u64 * 8);
        assert_eq!(out.len(), count);
        assert_eq!(&out[0][..len], &data[..]);
        assert_eq!(out[0][len], 0x80);
        let last = out.last().unwrap();
        assert_eq!(&last[56..], &(len as u64 * 8).to_be_bytes());
        let zero_end = if count == 1 { 56 } else { 64 };
        assert!(out[0][len + 1..zero_end].iter().all(|&b| b == 0));
        if count == 2 {
            assert!(last[..56].iter().all(|&b| b == 0));
        }
        assert_eq!(buf.get_pos(), 0);
    }
}

#[test]
fn little_endian_and_wide_length_padding() {
    let mut buf = BlockBuffer::new(64);
    buf.digest_block(b"abc");
    let out = buf.len64_padding_le(0x0102_0304_0506_0708);
    assert_eq!(out.len(), 1);
    assert_eq!(&out[0][56..], &[8, 7, 6, 5, 4, 3, 2, 1]);
    assert_eq!(&out[0][..4], b"abc\x80");

    let mut wide = BlockBuffer::new(128);
    wide.digest_block(b"abc");
    let value: u128 = (1u128 << 64) | 0x18;
    let out = wide.len128_padding_be(value);
    assert_eq!(out.len(), 1);
    assert_eq!(&out[0][112..], &value.to_be_bytes());
    assert!(out[0][4..112].iter().all(|&b| b == 0));
}

#[test]
fn xor_round_trip_restores_data() {
    let bs = 16;
    let plain = bytes(70, 11);
    let keystream = bytes(400, 200);
    let mut data = plain.clone();
    for _ in 0..2 {
        let mut buf = BlockBuffer::new(bs);
        let mut used = 0usize;
        for range in [0..5usize, 5..5, 5..21, 21..70] {
            let need = buf.keystream_blocks_needed(range.len());
            let fresh = &keystream[used..used + need * bs];
            used += need * bs;
            assert!(buf.xor_data(&mut data[range], fresh));
            assert!(buf.get_pos() < bs);
        }
        if data != plain {
            let expected: Vec<u8> = plain.iter().zip(&keystream).map(|(a, k)| a ^ k).collect();
            assert_eq!(data, expected);
        }
    }
    assert_eq!(data, plain);
}

#[test]
fn xor_reuses_leftover_keystream() {
    let mut buf = BlockBuffer::new(4);
    let mut a = [0u8; 3];
    assert_eq!(buf.keystream_blocks_needed(3), 1);
    assert!(buf.xor_data(&mut a, &[1, 2, 3, 4]));
    assert_eq!(a, [1, 2, 3]);
    assert_eq!(buf.keystream_blocks_needed(1), 0);
    let mut b = [0u8; 6];
    assert_eq!(buf.keystream_blocks_needed(6), 2);
    assert!(buf.xor_data(&mut b, &[5, 6, 7, 8, 9, 10, 11, 12]));
    assert_eq!(b, [4, 5, 6, 7, 8, 9]);
    assert_eq!(buf.get_pos(), 1);
}

#[test]
fn xor_rejects_wrong_keystream_length() {
    let mut buf = BlockBuffer::new(4);
    let mut a = [7u8; 5];
    assert!(!buf.xor_data(&mut a, &[1, 2, 3, 4]));
    assert_eq!(a, [7u8; 5]);
    assert_eq!(buf.get_pos(), 0);
}

#[test]
fn block_cipher_padding_schemes() {
    let cases = [
        (PaddingScheme::Zero, b"test\x00\x00\x00\x00"),
        (PaddingScheme::Pkcs7, b"test\x04\x04\x04\x04"),
        (PaddingScheme::AnsiX923, b"test\x00\x00\x00\x04"),
        (PaddingScheme::Iso7816, b"test\x80\x00\x00\x00"),
    ];
    for (scheme, expected) in cases {
        let mut buf = BlockBuffer::new(8);
        buf.digest_block(&[0xff; 8]);
        buf.digest_block(b"test");
        assert_eq!(buf.pad_with(scheme), expected.to_vec());
        assert_eq!(buf.get_pos(), 0);
    }
}
