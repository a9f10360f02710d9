//! The binary `COPY` wire format: the header, the big-endian integers that
//! frame tuples and fields, and the field values carried between the state
//! machines and their callers.
use byteorder::{BigEndian, ByteOrder};
use vstd::prelude::*;

verus! {

/// Bytes in the fixed signature that opens every stream.
pub const MAGIC_LEN: usize = 11;

/// Bytes in the whole header: signature, flags and extension length.
pub const HEADER_LEN: usize = 19;

/// The flags bit that announces a leading row OID field in every tuple.
pub const OID_FLAG: i32 = 0x10000;

/// The fixed signature `PGCOPY\n\xff\r\n\0`.
pub open spec fn header_magic() -> Seq<u8> {
    seq![0x50u8, 0x47u8, 0x43u8, 0x4fu8, 0x50u8, 0x59u8, 0x0au8, 0xffu8, 0x0du8, 0x0au8, 0x00u8]
}

/// The two bytes of `v`, most significant first, in two's complement.
pub open spec fn be16(v: int) -> Seq<u8> {
    let u = if v < 0 { v + 0x10000 } else { v };
    seq![(u / 0x100) as u8, (u % 0x100) as u8]
}

/// The four bytes of `v`, most significant first, in two's complement.
pub open spec fn be32(v: int) -> Seq<u8> {
    let u = if v < 0 { v + 0x1_0000_0000 } else { v };
    seq![
        (u / 0x100_0000) as u8,
        ((u / 0x1_0000) % 0x100) as u8,
        ((u / 0x100) % 0x100) as u8,
        (u % 0x100) as u8,
    ]
}

/// The signed 16-bit integer that the first two bytes of `s` hold.
pub open spec fn i16_at(s: Seq<u8>) -> int {
    let u = s[0] as int * 0x100 + s[1] as int;
    if u >= 0x8000 {
        u - 0x10000
    } else {
        u
    }
}

/// The signed 32-bit integer that the first four bytes of `s` hold.
pub open spec fn i32_at(s: Seq<u8>) -> int {
    let u = s[0] as int * 0x100_0000 + s[1] as int * 0x1_0000 + s[2] as int * 0x100 + s[3] as int;
    if u >= 0x8000_0000 {
        u - 0x1_0000_0000
    } else {
        u
    }
}

/// The header that an encoder writes: the signature, no flags, no extension.
pub open spec fn header_bytes() -> Seq<u8> {
    header_magic() + be32(0) + be32(0)
}

/// The length prefix `-1` that stands for a null field.
pub open spec fn null_marker() -> Seq<u8> {
    be32(-1)
}

/// The tuple field count `-1` that ends the stream.
pub open spec fn footer_bytes() -> Seq<u8> {
    be16(-1)
}

/// One field on the wire: its length prefix and payload, or the null marker.
pub open spec fn field_bytes(f: Option<Seq<u8>>) -> Seq<u8> {
    match f {
        Some(p) => be32(p.len() as int) + p,
        None => null_marker(),
    }
}

/// Whether every payload among `fields` has a length that a 32-bit signed
/// prefix can carry.
pub open spec fn payloads_fit(fields: Seq<Option<Seq<u8>>>) -> bool {
    forall|i: int|
        0 <= i < fields.len() ==> match #[trigger] fields[i] {
            Some(p) => p.len() <= i32::MAX,
            None => true,
        }
}

/// The smaller of two lengths.
pub open spec fn min_len(a: nat, b: nat) -> nat {
    if a < b {
        a
    } else {
        b
    }
}

pub proof fn lemma_be16(v: int)
    requires
        i16::MIN <= v <= i16::MAX,
    ensures
        be16(v).len() == 2,
        i16_at(be16(v)) == v,
{
    let u = if v < 0 { v + 0x10000 } else { v };
    assert(u == (u / 0x100) * 0x100 + u % 0x100);
    assert(0 <= u / 0x100 < 0x100);
}

pub proof fn lemma_be32(v: int)
    requires
        i32::MIN <= v <= i32::MAX,
    ensures
        be32(v).len() == 4,
        i32_at(be32(v)) == v,
{
    let u = if v < 0 { v + 0x1_0000_0000 } else { v };
    let a = u / 0x100_0000;
    let r = u % 0x100_0000;
    let b = r / 0x1_0000;
    let r2 = r % 0x1_0000;
    let c = r2 / 0x100;
    let d = r2 % 0x100;
    assert(u == a * 0x100_0000 + r);
    assert(r == b * 0x1_0000 + r2);
    assert(r2 == c * 0x100 + d);
    assert(0 <= a < 0x100);
    assert((u / 0x1_0000) % 0x100 == b) by {
        assert(u / 0x1_0000 == a * 0x100 + b);
    }
    assert((u / 0x100) % 0x100 == c) by {
        assert(u / 0x100 == a * 0x1_0000 + b * 0x100 + c);
    }
    assert(u % 0x100 == d) by {
        assert(u == (a * 0x1_0000 + b * 0x100 + c) * 0x100 + d);
    }
}

/// A field value handed between the state machines and their callers: a
/// null, or the raw payload bytes.
#[derive(Debug, PartialEq, Eq)]
pub enum Field {
    Null,
    Value(Vec<u8>),
}

impl View for Field {
    type V = Option<Seq<u8>>;

    open spec fn view(&self) -> Option<Seq<u8>> {
        match self {
            Field::Null => None,
            Field::Value(v) => Some(v@),
        }
    }
}

impl Field {
    /// Whether this is the null value.
    pub fn is_null(&self) -> (r: bool)
        ensures
            r == (self@ is None),
    {
        match self {
            Field::Null => true,
            Field::Value(_) => false,
        }
    }
}

/// Relies on byteorder's `BigEndian::read_i16`: the first two bytes, most
/// significant first, as a signed integer. It panics on fewer than two bytes.
#[verifier::external_body]
pub(crate) fn read_be_i16(b: &[u8]) -> (r: i16)
    requires
        b@.len() >= 2,
    ensures
        r as int == i16_at(b@),
{
    BigEndian::read_i16(b)
}

/// Relies on byteorder's `BigEndian::read_i32`: the first four bytes, most
/// significant first, as a signed integer. It panics on fewer than four bytes.
#[verifier::external_body]
pub(crate) fn read_be_i32(b: &[u8]) -> (r: i32)
    requires
        b@.len() >= 4,
    ensures
        r as int == i32_at(b@),
{
    BigEndian::read_i32(b)
}

/// Relies on byteorder's `BigEndian::write_i16`: writes `n` into the first
/// two bytes of a buffer, most significant first.
#[verifier::external_body]
pub(crate) fn be_i16_bytes(n: i16) -> (r: Vec<u8>)
    ensures
        r@ == be16(n as int),
{
    let mut b = vec![0u8; 2];
    BigEndian::write_i16(&mut b, n);
    b
}

/// Relies on byteorder's `BigEndian::write_i32`: writes `n` into the first
/// four bytes of a buffer, most significant first.
#[verifier::external_body]
pub(crate) fn be_i32_bytes(n: i32) -> (r: Vec<u8>)
    ensures
        r@ == be32(n as int),
{
    let mut b = vec![0u8; 4];
    BigEndian::write_i32(&mut b, n);
    b
}

/// The fixed signature as bytes.
pub fn header_magic_bytes() -> (r: Vec<u8>)
    ensures
        r@ == header_magic(),
{
    let r = vec![0x50u8, 0x47u8, 0x43u8, 0x4fu8, 0x50u8, 0x59u8, 0x0au8, 0xffu8, 0x0du8, 0x0au8, 0x00u8];
    assert(r@ =~= header_magic());
    r
}

} // verus!
