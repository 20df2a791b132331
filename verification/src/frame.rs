//! Frames on the client connection: a four-byte big-endian length, then that
//! many bytes of message.

use vstd::prelude::*;

verus! {

/// Four bytes read as a big-endian unsigned number.
pub open spec fn be_value(b: Seq<u8>) -> nat
    recommends
        b.len() == 4,
{
    (b[0] * 0x100_0000 + b[1] * 0x1_0000 + b[2] * 0x100 + b[3]) as nat
}

/// The four big-endian bytes of a number below `2^32`.
pub open spec fn be_bytes(v: nat) -> Seq<u8>
    recommends
        v < 0x1_0000_0000,
{
    seq![
        (v / 0x100_0000) as u8,
        ((v / 0x1_0000) % 0x100) as u8,
        ((v / 0x100) % 0x100) as u8,
        (v % 0x100) as u8,
    ]
}

/// The length of the message that follows a frame header.
pub fn frame_len(header: [u8; 4]) -> (len: u32)
    ensures
        len == be_value(header@),
        len as int == header[0] as int * 0x100_0000 + header[1] as int * 0x1_0000 + header[2] as int * 0x100
            + header[3] as int,
{
    let b0 = header[0] as u32;
    let b1 = header[1] as u32;
    let b2 = header[2] as u32;
    let b3 = header[3] as u32;
    b0 * 0x100_0000 + b1 * 0x1_0000 + b2 * 0x100 + b3
}

/// The header for a message of `len` bytes: the length as a 32-bit big-endian
/// number, cut down to its low 32 bits as a cast to `u32` does.
pub fn frame_header(len: usize) -> (header: [u8; 4])
    ensures
        header@ == be_bytes(len as nat % 0x1_0000_0000),
        header[0] as int == (len as int % 0x1_0000_0000) / 0x100_0000 % 0x100,
        header[1] as int == (len as int % 0x1_0000_0000) / 0x1_0000 % 0x100,
        header[2] as int == (len as int % 0x1_0000_0000) / 0x100 % 0x100,
        header[3] as int == (len as int % 0x1_0000_0000) % 0x100,
{
    let v: u64 = len as u64 % 0x1_0000_0000;
    let header: [u8; 4] = [
        (v / 0x100_0000) as u8,
        ((v / 0x1_0000) % 0x100) as u8,
        ((v / 0x100) % 0x100) as u8,
        (v % 0x100) as u8,
    ];
    assert(header@ =~= be_bytes(len as nat % 0x1_0000_0000));
    header
}

/// A header read back gives the length it was written for.
pub proof fn lemma_header_round_trip(v: nat)
    requires
        v < 0x1_0000_0000,
    ensures
        be_bytes(v).len() == 4,
        be_value(be_bytes(v)) == v,
{
    let b = be_bytes(v);
    assert(v / 0x100_0000 < 0x100);
    assert(b[0] == v / 0x100_0000);
    assert(b[1] == (v / 0x1_0000) % 0x100);
    assert(b[2] == (v / 0x100) % 0x100);
    assert(b[3] == v % 0x100);
}

/// Every header is the one written for the length it gives.
pub proof fn lemma_value_round_trip(b: Seq<u8>)
    requires
        b.len() == 4,
    ensures
        be_value(b) < 0x1_0000_0000,
        be_bytes(be_value(b)) == b,
{
    let v = be_value(b);
    assert(be_bytes(v) =~= b);
}

/// The header arithmetic is plain base-256 positional notation, most
/// significant digit first: `be_value` weighs the bytes by 2^24, 2^16, 2^8 and
/// 1, and `be_bytes` gives the base-256 digits of a length, each the length
/// divided by its weight, modulo 256.
pub proof fn lemma_big_endian_digits(b: Seq<u8>, v: nat)
    requires
        b.len() == 4,
        v < 0x1_0000_0000,
    ensures
        be_value(b) == b[0] as int * 16777216 + b[1] as int * 65536 + b[2] as int * 256 + b[3] as int,
        be_bytes(v).len() == 4,
        be_bytes(v)[0] as int == v as int / 16777216 % 256,
        be_bytes(v)[1] as int == v as int / 65536 % 256,
        be_bytes(v)[2] as int == v as int / 256 % 256,
        be_bytes(v)[3] as int == v as int % 256,
{
    assert(v / 0x100_0000 < 0x100);
}

/// A header with a greater leading byte stands for a greater length: bytes
/// are weighed most significant first.
pub proof fn lemma_leading_byte_dominates(a: Seq<u8>, b: Seq<u8>)
    requires
        a.len() == 4,
        b.len() == 4,
        a[0] < b[0],
    ensures
        be_value(a) < be_value(b),
{
}

} // verus!
