use block_buffer::decoder::Decoder;
use block_buffer::der::{ErrorKind, Sequence, Tag};
use block_buffer::oid::ObjectIdentifier;

const OID_BYTES: [u8; 8] = [0x06, 0x06, 0x2a, 0x86, 0x48, 0x86, 0xf7, 0x0d];

#[test]
fn nested_oid_is_decoded() {
    let seq = Sequence::new(&OID_BYTES).unwrap();
    let oid = seq.decode_nested(|d| d.oid()).unwrap();
    assert_eq!(oid, ObjectIdentifier::new(&[1, 2, 840, 113549]));
}

#[test]
fn nested_trailing_data_is_an_error() {
    let mut contents = OID_BYTES.to_vec();
    contents.push(0x05);
    contents.push(0x00);
    let seq = Sequence::new(&contents).unwrap();
    assert_eq!(
        seq.decode_nested(|d| d.oid()),
        Err(ErrorKind::TrailingData { decoded: 8, remaining: 2 })
    );
}

#[test]
fn nested_error_is_passed_on() {
    let seq = Sequence::new(&[0x05, 0x00]).unwrap();
    assert_eq!(
        seq.decode_nested(|d| d.oid()),
        Err(ErrorKind::UnexpectedTag { expected: Tag::ObjectIdentifier })
    );
}

#[test]
fn decoder_reads_bytes_then_finishes() {
    let mut d = Decoder::new(&[7, 8]);
    assert_eq!(d.remaining_len(), 2);
    assert_eq!(d.read_byte(), Ok(7));
    assert!(!d.is_finished());
    assert_eq!(d.read_byte(), Ok(8));
    assert!(d.is_finished());
    assert_eq!(d.read_byte(), Err(ErrorKind::Truncated));
    assert_eq!(d.finish(42), Ok(42));
}

#[test]
fn decoder_oid_on_empty_input() {
    let mut d = Decoder::new(&[]);
    assert_eq!(d.oid(), Err(ErrorKind::Truncated));
}
