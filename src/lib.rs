//! A dynamically typed MessagePack value tree and its canonical encoder.
use vstd::prelude::*;
use vstd::utf8::encode_utf8;

pub mod wire;
pub mod encode;
pub mod canonical;
pub mod decode;

pub use encode::{encode_to_vec, write_value, ByteSink, Error, SinkError};


verus! {

/// Storage of an integer: non-negative magnitudes as `u64`, negative ones as `i64`,
/// so that the whole unsigned 64-bit range fits beside the negative values.
#[derive(Clone, Copy, Debug, PartialEq, Eq)]
enum IntPriv {
    PosInt(u64),
    NegInt(i64),
}

/// One logical integer in the range `-2^63 .. 2^64`.
#[derive(Clone, Copy, Debug, PartialEq, Eq)]
pub struct Integer {
    n: IntPriv,
}

impl Integer {
    /// The numeric value.
    pub closed spec fn value(self) -> int {
        match self.n {
            IntPriv::PosInt(u) => u as int,
            IntPriv::NegInt(i) => i as int,
        }
    }

    /// Every integer lies in `-2^63 .. 2^64`.
    pub proof fn lemma_value_range(self)
        ensures
            -0x8000_0000_0000_0000 <= self.value() < 0x1_0000_0000_0000_0000,
    {
    }

    pub fn from_u64(u: u64) -> (r: Integer)
        ensures
            r.value() == u,
    {
        Integer { n: IntPriv::PosInt(u) }
    }

    pub fn from_i64(i: i64) -> (r: Integer)
        ensures
            r.value() == i,
    {
        if i < 0 {
            Integer { n: IntPriv::NegInt(i) }
        } else {
            Integer { n: IntPriv::PosInt(i as u64) }
        }
    }
}

/// A string payload: text that passed UTF-8 validation, or the raw bytes that failed it
/// together with the validation error.
#[derive(Debug, PartialEq)]
pub struct Utf8String {
    s: Result<String, (Vec<u8>, std::str::Utf8Error)>,
}

#[verifier::external_type_specification]
#[verifier::external_body]
pub struct ExUtf8Error(std::str::Utf8Error);

impl Utf8String {
    /// The bytes that go on the wire: the UTF-8 encoding of valid text, or the raw bytes.
    pub closed spec fn bytes(self) -> Seq<u8> {
        match self.s {
            Ok(t) => encode_utf8(t@),
            Err(e) => e.0@,
        }
    }

    /// The text of a payload that passed validation.
    pub closed spec fn text(self) -> Seq<char> {
        match self.s {
            Ok(t) => t@,
            Err(_) => Seq::empty(),
        }
    }

    /// The wire bytes of text are its UTF-8 encoding.
    pub proof fn lemma_text_bytes(self)
        ensures
            self.is_text() ==> self.bytes() == encode_utf8(self.text()),
    {
    }

    /// Whether the payload passed UTF-8 validation.
    pub closed spec fn is_text(self) -> bool {
        self.s is Ok
    }

    pub fn from_string(t: String) -> (r: Utf8String)
        ensures
            r.is_text(),
            r.text() == t@,
            r.bytes() == encode_utf8(t@),
    {
        Utf8String { s: Ok(t) }
    }

    pub fn from_invalid(bytes: Vec<u8>, err: std::str::Utf8Error) -> (r: Utf8String)
        ensures
            !r.is_text(),
            r.bytes() == bytes@,
    {
        Utf8String { s: Err((bytes, err)) }
    }
}

/// A MessagePack value. Floats are held as their IEEE-754 bit patterns.
#[derive(Debug, PartialEq)]
pub enum Value {
    Nil,
    Boolean(bool),
    Integer(Integer),
    F32(u32),
    F64(u64),
    String(Utf8String),
    Binary(Vec<u8>),
    Array(Vec<Value>),
    Mapping(Vec<(Value, Value)>),
    Ext(i8, Vec<u8>),
}

} // verus!
