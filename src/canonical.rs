//! Facts about the canonical encoding: shortest integers, the byte-string fallback for invalid
//! text, empty containers, and reading integers back.
use vstd::prelude::*;

use crate::encode::encoding;
use crate::wire::{be_bytes, int_encoding};
use crate::{Utf8String, Value};

verus! {

/// The length of the shortest MessagePack form of the integer `n`: a fixed integer for
/// `-32 <= n < 128`, else a marker and the fewest of 1, 2, 4 or 8 bytes that hold `n`.
pub open spec fn shortest_int_len(n: int) -> nat {
    if -32 <= n < 128 {
        1
    } else if -0x80 <= n < 0x100 {
        2
    } else if -0x8000 <= n < 0x1_0000 {
        3
    } else if -0x8000_0000 <= n < 0x1_0000_0000 {
        5
    } else {
        9
    }
}

pub(crate) proof fn lemma_be_bytes_len(x: nat, n: nat)
    ensures
        be_bytes(x, n).len() == n,
    decreases n,
{
    if n > 0 {
        lemma_be_bytes_len(x / 256, (n - 1) as nat);
    }
}

/// Every integer is encoded in the shortest form that holds it.
pub proof fn lemma_int_encoding_shortest(n: int)
    requires
        -0x8000_0000_0000_0000 <= n < 0x1_0000_0000_0000_0000,
    ensures
        int_encoding(n).len() == shortest_int_len(n),
{
    lemma_be_bytes_len((n + 0x100) as nat, 1);
    lemma_be_bytes_len(n as nat, 2);
    lemma_be_bytes_len(n as nat, 4);
    lemma_be_bytes_len(n as nat, 8);
    lemma_be_bytes_len((n + 0x1_0000) as nat, 2);
    lemma_be_bytes_len((n + 0x1_0000_0000) as nat, 4);
    lemma_be_bytes_len((n + 0x1_0000_0000_0000_0000) as nat, 8);
}

/// A string whose bytes failed UTF-8 validation is encoded exactly as binary data holding the
/// same bytes.
pub proof fn lemma_invalid_string_is_binary(s: Utf8String, b: Vec<u8>)
    requires
        !s.is_text(),
        s.bytes() == b@,
    ensures
        encoding(Value::String(s)) == encoding(Value::Binary(b)),
{
}

/// An empty array and an empty map are each a single length-0 marker.
pub proof fn lemma_empty_containers(items: Vec<Value>, pairs: Vec<(Value, Value)>)
    requires
        items@.len() == 0,
        pairs@.len() == 0,
    ensures
        encoding(Value::Array(items)) == seq![0x90u8],
        encoding(Value::Mapping(pairs)) == seq![0x80u8],
{
    assert(encoding(Value::Array(items)) =~= seq![0x90u8]);
    assert(encoding(Value::Mapping(pairs)) =~= seq![0x80u8]);
}

/// `256^n`.
pub open spec fn pow256(n: nat) -> nat
    decreases n,
{
    if n == 0 {
        1
    } else {
        256 * pow256((n - 1) as nat)
    }
}

/// The unsigned number that `s` writes most significant byte first.
pub open spec fn be_value(s: Seq<u8>) -> nat
    decreases s.len(),
{
    if s.len() == 0 {
        0
    } else {
        be_value(s.drop_last()) * 256 + s.last() as nat
    }
}

/// The signed number whose two's complement `s` holds.
pub open spec fn be_signed(s: Seq<u8>) -> int {
    let v = be_value(s) as int;
    if v >= pow256(s.len()) / 2 {
        v - pow256(s.len())
    } else {
        v
    }
}

/// The integer that a MessagePack integer item starting at `b[0]` stands for, if `b` starts with
/// one.
pub open spec fn decode_int(b: Seq<u8>) -> Option<int> {
    if b.len() == 0 {
        None
    } else {
        let m = b[0];
        let rest = b.subrange(1, b.len() as int);
        if m < 0x80 {
            Some(m as int)
        } else if m >= 0xe0 {
            Some(m as int - 256)
        } else if m == 0xcc && rest.len() >= 1 {
            Some(be_value(rest.take(1)) as int)
        } else if m == 0xcd && rest.len() >= 2 {
            Some(be_value(rest.take(2)) as int)
        } else if m == 0xce && rest.len() >= 4 {
            Some(be_value(rest.take(4)) as int)
        } else if m == 0xcf && rest.len() >= 8 {
            Some(be_value(rest.take(8)) as int)
        } else if m == 0xd0 && rest.len() >= 1 {
            Some(be_signed(rest.take(1)))
        } else if m == 0xd1 && rest.len() >= 2 {
            Some(be_signed(rest.take(2)))
        } else if m == 0xd2 && rest.len() >= 4 {
            Some(be_signed(rest.take(4)))
        } else if m == 0xd3 && rest.len() >= 8 {
            Some(be_signed(rest.take(8)))
        } else {
            None
        }
    }
}

pub(crate) proof fn lemma_be_round_trip(x: nat, n: nat)
    requires
        x < pow256(n),
    ensures
        be_bytes(x, n).len() == n,
        be_value(be_bytes(x, n)) == x,
    decreases n,
{
    if n > 0 {
        let p = pow256((n - 1) as nat);
        assert(x / 256 < p) by (nonlinear_arith)
            requires
                x < 256 * p,
        ;
        lemma_be_round_trip(x / 256, (n - 1) as nat);
        let s = be_bytes(x, n);
        assert(s.drop_last() =~= be_bytes(x / 256, (n - 1) as nat));
    }
}

/// Decoding the encoding of an integer gives the integer back, whatever bytes follow it.
pub proof fn lemma_int_round_trip(n: int, rest: Seq<u8>)
    requires
        -0x8000_0000_0000_0000 <= n < 0x1_0000_0000_0000_0000,
    ensures
        decode_int(int_encoding(n) + rest) == Some(n),
{
    reveal_with_fuel(pow256, 9);
    let e = int_encoding(n);
    let b = e + rest;
    let tail = b.subrange(1, b.len() as int);
    if 0 <= n < 128 || -32 <= n < 0 {
    } else {
        let (x, k) = if 128 <= n < 256 {
            (n as nat, 1nat)
        } else if 256 <= n < 0x1_0000 {
            (n as nat, 2nat)
        } else if 0x1_0000 <= n < 0x1_0000_0000 {
            (n as nat, 4nat)
        } else if 0x1_0000_0000 <= n {
            (n as nat, 8nat)
        } else if -128 <= n {
            ((n + 0x100) as nat, 1nat)
        } else if -0x8000 <= n {
            ((n + 0x1_0000) as nat, 2nat)
        } else if -0x8000_0000 <= n {
            ((n + 0x1_0000_0000) as nat, 4nat)
        } else {
            ((n + 0x1_0000_0000_0000_0000) as nat, 8nat)
        };
        lemma_be_round_trip(x, k);
        assert(e =~= seq![e[0]] + be_bytes(x, k));
        assert(tail.take(k as int) =~= be_bytes(x, k));
    }
}

} // verus!
