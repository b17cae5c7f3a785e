use block_buffer::der::{ErrorKind, Tag};
use block_buffer::oid::ObjectIdentifier;

const EXAMPLE_OID_BYTES: &[u8; 8] = &[0x06, 0x06, 0x2a, 0x86, 0x48, 0x86, 0xf7, 0x0d];

fn example_oid() -> ObjectIdentifier {
    ObjectIdentifier::new(&[1, 2, 840, 113549])
}

#[test]
fn decode() {
    assert_eq!(
        example_oid(),
        ObjectIdentifier::from_bytes(EXAMPLE_OID_BYTES).unwrap()
    );
}

#[test]
fn encode() {
    let mut buffer = [0u8; 8];
    assert_eq!(
        &EXAMPLE_OID_BYTES[..],
        &example_oid().encode_to_slice(&mut buffer).unwrap()[..]
    );
    assert_eq!(&buffer[..], &EXAMPLE_OID_BYTES[..]);
}

#[test]
fn oid_arcs_round_trip() {
    let oid = ObjectIdentifier::from_bytes(EXAMPLE_OID_BYTES).unwrap();
    assert_eq!(oid.arcs(), &[1u32, 2, 840, 113549][..]);
}

#[test]
fn oid_decode_errors() {
    assert_eq!(ObjectIdentifier::from_bytes(&[]), Err(ErrorKind::Truncated));
    assert_eq!(ObjectIdentifier::from_bytes(&[0x06]), Err(ErrorKind::Truncated));
    assert_eq!(
        ObjectIdentifier::from_bytes(&[0x30, 0x00]),
        Err(ErrorKind::UnexpectedTag { expected: Tag::ObjectIdentifier })
    );
    assert_eq!(
        ObjectIdentifier::from_bytes(&[0x06, 0x05, 0x2a]),
        Err(ErrorKind::Length { tag: Tag::ObjectIdentifier })
    );
    // a non-minimal digit (leading 0x80) does not re-encode to the input
    assert_eq!(
        ObjectIdentifier::from_bytes(&[0x06, 0x02, 0x80, 0x2a]),
        Err(ErrorKind::Value { tag: Tag::ObjectIdentifier })
    );
    // last digit still has its continuation bit set
    assert_eq!(
        ObjectIdentifier::from_bytes(&[0x06, 0x01, 0x86]),
        Err(ErrorKind::Truncated)
    );
}

#[test]
fn oid_encode_short_buffer() {
    let mut buffer = [0xffu8; 7];
    assert_eq!(
        example_oid().encode_to_slice(&mut buffer),
        Err(ErrorKind::Overflow)
    );
    assert_eq!(buffer, [0xffu8; 7]);
}

#[test]
fn oid_ber_bytes_of_large_first_root() {
    // 2.999.3: 40 * 2 + 999 = 1079 = 0x437 -> 0x88 0x37
    let oid = ObjectIdentifier::new(&[2, 999, 3]);
    assert_eq!(oid.ber_bytes(), vec![0x88, 0x37, 0x03]);
}
