//! The MessagePack wire format of single items: markers, length headers and scalars.
use vstd::prelude::*;
use vstd::utf8::encode_utf8;

verus! {

/// `x` as `n` bytes, most significant first (the low `n` bytes of `x`).
pub open spec fn be_bytes(x: nat, n: nat) -> Seq<u8>
    decreases n,
{
    if n == 0 {
        Seq::empty()
    } else {
        be_bytes(x / 256, (n - 1) as nat).push((x % 256) as u8)
    }
}

/// The shortest encoding of the integer `n`, for `-2^63 <= n < 2^64`.
pub open spec fn int_encoding(n: int) -> Seq<u8> {
    if 0 <= n < 128 {
        seq![n as u8]
    } else if -32 <= n < 0 {
        seq![(n + 256) as u8]
    } else if 128 <= n < 256 {
        seq![0xccu8, n as u8]
    } else if 256 <= n < 0x1_0000 {
        seq![0xcdu8] + be_bytes(n as nat, 2)
    } else if 0x1_0000 <= n < 0x1_0000_0000 {
        seq![0xceu8] + be_bytes(n as nat, 4)
    } else if 0x1_0000_0000 <= n {
        seq![0xcfu8] + be_bytes(n as nat, 8)
    } else if -128 <= n {
        seq![0xd0u8] + be_bytes((n + 0x100) as nat, 1)
    } else if -0x8000 <= n {
        seq![0xd1u8] + be_bytes((n + 0x1_0000) as nat, 2)
    } else if -0x8000_0000 <= n {
        seq![0xd2u8] + be_bytes((n + 0x1_0000_0000) as nat, 4)
    } else {
        seq![0xd3u8] + be_bytes((n + 0x1_0000_0000_0000_0000) as nat, 8)
    }
}

/// Header of a string of `len` bytes.
pub open spec fn str_header(len: nat) -> Seq<u8> {
    if len < 32 {
        seq![(0xa0 + len) as u8]
    } else if len < 0x100 {
        seq![0xd9u8] + be_bytes(len, 1)
    } else if len < 0x1_0000 {
        seq![0xdau8] + be_bytes(len, 2)
    } else {
        seq![0xdbu8] + be_bytes(len, 4)
    }
}

/// Header of a byte string of `len` bytes.
pub open spec fn bin_header(len: nat) -> Seq<u8> {
    if len < 0x100 {
        seq![0xc4u8] + be_bytes(len, 1)
    } else if len < 0x1_0000 {
        seq![0xc5u8] + be_bytes(len, 2)
    } else {
        seq![0xc6u8] + be_bytes(len, 4)
    }
}

/// Header of an array of `len` elements.
pub open spec fn array_header(len: nat) -> Seq<u8> {
    if len < 16 {
        seq![(0x90 + len) as u8]
    } else if len < 0x1_0000 {
        seq![0xdcu8] + be_bytes(len, 2)
    } else {
        seq![0xddu8] + be_bytes(len, 4)
    }
}

/// Header of a map of `len` pairs.
pub open spec fn map_header(len: nat) -> Seq<u8> {
    if len < 16 {
        seq![(0x80 + len) as u8]
    } else if len < 0x1_0000 {
        seq![0xdeu8] + be_bytes(len, 2)
    } else {
        seq![0xdfu8] + be_bytes(len, 4)
    }
}

/// Header of an extension of type `ty` with a payload of `len` bytes.
pub open spec fn ext_header(len: nat, ty: i8) -> Seq<u8> {
    let t = seq![ty as u8];
    if len == 1 {
        seq![0xd4u8] + t
    } else if len == 2 {
        seq![0xd5u8] + t
    } else if len == 4 {
        seq![0xd6u8] + t
    } else if len == 8 {
        seq![0xd7u8] + t
    } else if len == 16 {
        seq![0xd8u8] + t
    } else if len < 0x100 {
        seq![0xc7u8] + be_bytes(len, 1) + t
    } else if len < 0x1_0000 {
        seq![0xc8u8] + be_bytes(len, 2) + t
    } else {
        seq![0xc9u8] + be_bytes(len, 4) + t
    }
}

/// A single-precision float with bit pattern `bits`.
pub open spec fn f32_encoding(bits: u32) -> Seq<u8> {
    seq![0xcau8] + be_bytes(bits as nat, 4)
}

/// A double-precision float with bit pattern `bits`.
pub open spec fn f64_encoding(bits: u64) -> Seq<u8> {
    seq![0xcbu8] + be_bytes(bits as nat, 8)
}

/// The largest length that a MessagePack length field holds.
pub const MAX_LEN: usize = 0xffff_ffff;

/// Relies on rmp::encode::write_nil: writes the nil marker. A `ByteBuf` never fails.
#[verifier::external_body]
pub(crate) fn nil_bytes() -> (r: Vec<u8>)
    ensures
        r@ == seq![0xc0u8],
{
    let mut buf = rmp::encode::ByteBuf::new();
    let _ = rmp::encode::write_nil(&mut buf);
    buf.into_vec()
}

/// Relies on rmp::encode::write_bool: writes the true or false marker.
#[verifier::external_body]
pub(crate) fn bool_bytes(b: bool) -> (r: Vec<u8>)
    ensures
        r@ == (if b { seq![0xc3u8] } else { seq![0xc2u8] }),
{
    let mut buf = rmp::encode::ByteBuf::new();
    let _ = rmp::encode::write_bool(&mut buf, b);
    buf.into_vec()
}

/// Relies on rmp::encode::write_uint: the shortest form of a non-negative integer.
#[verifier::external_body]
pub(crate) fn uint_bytes(u: u64) -> (r: Vec<u8>)
    ensures
        r@ == int_encoding(u as int),
{
    let mut buf = rmp::encode::ByteBuf::new();
    let _ = rmp::encode::write_uint(&mut buf, u);
    buf.into_vec()
}

/// Relies on rmp::encode::write_sint: the shortest form of a signed integer.
#[verifier::external_body]
pub(crate) fn sint_bytes(i: i64) -> (r: Vec<u8>)
    ensures
        r@ == int_encoding(i as int),
{
    let mut buf = rmp::encode::ByteBuf::new();
    let _ = rmp::encode::write_sint(&mut buf, i);
    buf.into_vec()
}

/// Relies on rmp::encode::write_str: the shortest string header, then the UTF-8 bytes.
#[verifier::external_body]
pub(crate) fn str_bytes(s: &str) -> (r: Vec<u8>)
    requires
        encode_utf8(s@).len() <= MAX_LEN,
    ensures
        r@ == str_header(encode_utf8(s@).len()) + encode_utf8(s@),
{
    let mut buf = rmp::encode::ByteBuf::new();
    let _ = rmp::encode::write_str(&mut buf, s);
    buf.into_vec()
}

/// Relies on rmp::encode::write_bin: the shortest byte-string header, then the bytes.
#[verifier::external_body]
pub(crate) fn bin_bytes(b: &[u8]) -> (r: Vec<u8>)
    requires
        b@.len() <= MAX_LEN,
    ensures
        r@ == bin_header(b@.len()) + b@,
{
    let mut buf = rmp::encode::ByteBuf::new();
    let _ = rmp::encode::write_bin(&mut buf, b);
    buf.into_vec()
}

/// Relies on rmp::encode::write_array_len: the shortest array header.
#[verifier::external_body]
pub(crate) fn array_len_bytes(len: u32) -> (r: Vec<u8>)
    ensures
        r@ == array_header(len as nat),
{
    let mut buf = rmp::encode::ByteBuf::new();
    let _ = rmp::encode::write_array_len(&mut buf, len);
    buf.into_vec()
}

/// Relies on rmp::encode::write_map_len: the shortest map header.
#[verifier::external_body]
pub(crate) fn map_len_bytes(len: u32) -> (r: Vec<u8>)
    ensures
        r@ == map_header(len as nat),
{
    let mut buf = rmp::encode::ByteBuf::new();
    let _ = rmp::encode::write_map_len(&mut buf, len);
    buf.into_vec()
}

/// Relies on rmp::encode::write_ext_meta: the shortest extension header with its type tag.
#[verifier::external_body]
pub(crate) fn ext_meta_bytes(len: u32, ty: i8) -> (r: Vec<u8>)
    ensures
        r@ == ext_header(len as nat, ty),
{
    let mut buf = rmp::encode::ByteBuf::new();
    let _ = rmp::encode::write_ext_meta(&mut buf, len, ty);
    buf.into_vec()
}

/// Appends the low `n` bytes of `x`, most significant first.
fn push_be(out: &mut Vec<u8>, x: u64, n: usize)
    requires
        n <= 8,
    ensures
        final(out)@ == old(out)@ + be_bytes(x as nat, n as nat),
    decreases n,
{
    if n > 0 {
        push_be(out, x / 256, n - 1);
        out.push((x % 256) as u8);
        proof {
            assert(be_bytes(x as nat, n as nat) == be_bytes((x / 256) as nat, (n - 1) as nat).push(
                (x % 256) as u8,
            ));
        }
    } else {
        assert(be_bytes(x as nat, 0) == Seq::<u8>::empty());
    }
}

/// The single-precision float with bit pattern `bits`: marker, then the four bytes.
pub fn f32_bytes(bits: u32) -> (r: Vec<u8>)
    ensures
        r@ == f32_encoding(bits),
{
    let mut out: Vec<u8> = Vec::new();
    out.push(0xca);
    push_be(&mut out, bits as u64, 4);
    out
}

/// The double-precision float with bit pattern `bits`: marker, then the eight bytes.
pub fn f64_bytes(bits: u64) -> (r: Vec<u8>)
    ensures
        r@ == f64_encoding(bits),
{
    let mut out: Vec<u8> = Vec::new();
    out.push(0xcb);
    push_be(&mut out, bits, 8);
    out
}

} // verus!
