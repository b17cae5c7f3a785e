use block_buffer::der::{encoded_len, ErrorKind, Sequence, Tag, MAX_LENGTH};

#[test]
fn sequence_keeps_its_bytes() {
    let seq = Sequence::new(&[1, 2, 3]).unwrap();
    assert_eq!(seq.as_bytes(), &[1u8, 2, 3][..]);
    assert_eq!(seq.encoded_len(), Ok(5));
}

#[test]
fn sequence_too_long() {
    let data = vec![0u8; MAX_LENGTH + 1];
    assert_eq!(
        Sequence::new(&data).unwrap_err(),
        ErrorKind::Length { tag: Tag::Sequence }
    );
}

#[test]
fn sequence_length_fields() {
    assert_eq!(encoded_len(&[]), Ok(2));
    assert_eq!(encoded_len(&[3, 5]), Ok(10));
    assert_eq!(encoded_len(&[127]), Ok(129));
    assert_eq!(encoded_len(&[128]), Ok(131));
    assert_eq!(encoded_len(&[256]), Ok(260));
    assert_eq!(encoded_len(&[MAX_LENGTH - 4]), Ok(MAX_LENGTH));
    assert_eq!(encoded_len(&[MAX_LENGTH - 3]), Err(ErrorKind::Overflow));
    assert_eq!(encoded_len(&[MAX_LENGTH, 1]), Err(ErrorKind::Overflow));
}
