//! Fixed-size buffer that cuts an arbitrarily chunked byte stream into
//! blocks, with length padding, block-cipher padding and keystream XOR;
//! and the small ASN.1 DER layer (`SEQUENCE`, `OBJECT IDENTIFIER`) that
//! sits beside it.

pub mod blocks;
pub mod buffer;
pub mod bytes;
pub mod decoder;
pub mod der;
pub mod length;
pub mod oid;
pub mod padding;
