//! A reader of the wire format, stated as spec functions, and the proof that it reads back
//! what the encoder writes.
use vstd::prelude::*;
use vstd::utf8::{decode_utf8, encode_utf8_decode_utf8};

use crate::encode::{encoding, items_encoding, pairs_encoding};
use crate::canonical::{
    be_value, decode_int, lemma_be_bytes_len, lemma_be_round_trip, lemma_int_encoding_shortest, lemma_int_round_trip,
    pow256,
};
use crate::wire::{
    array_header, be_bytes, bin_header, ext_header, int_encoding, map_header, str_header, MAX_LEN,
};
use crate::Value;

verus! {

broadcast use {
    vstd::std_specs::vec::axiom_vec_decreases_to_view,
    vstd::seq::axiom_seq_index_decreases,
    vstd::seq::axiom_seq_subrange_decreases,
};

/// What a reader recovers of a value: text as characters, everything else as it was.
pub enum ValueModel {
    Nil,
    Boolean(bool),
    Integer(int),
    F32(u32),
    F64(u64),
    Text(Seq<char>),
    Binary(Seq<u8>),
    Array(Seq<ValueModel>),
    Mapping(Seq<(ValueModel, ValueModel)>),
    Ext(i8, Seq<u8>),
}

/// The model of `v`. A string that failed validation is a byte string.
pub open spec fn model(v: Value) -> ValueModel
    decreases v,
{
    match v {
        Value::Nil => ValueModel::Nil,
        Value::Boolean(b) => ValueModel::Boolean(b),
        Value::Integer(i) => ValueModel::Integer(i.value()),
        Value::F32(bits) => ValueModel::F32(bits),
        Value::F64(bits) => ValueModel::F64(bits),
        Value::String(s) => if s.is_text() {
            ValueModel::Text(s.text())
        } else {
            ValueModel::Binary(s.bytes())
        },
        Value::Binary(b) => ValueModel::Binary(b@),
        Value::Array(items) => ValueModel::Array(models(items@)),
        Value::Mapping(pairs) => ValueModel::Mapping(pair_models(pairs@)),
        Value::Ext(ty, data) => ValueModel::Ext(ty, data@),
    }
}

pub open spec fn models(items: Seq<Value>) -> Seq<ValueModel>
    decreases items,
{
    if items.len() == 0 {
        Seq::empty()
    } else {
        models(items.drop_last()).push(model(items.last()))
    }
}

pub open spec fn pair_models(pairs: Seq<(Value, Value)>) -> Seq<(ValueModel, ValueModel)>
    decreases pairs,
{
    if pairs.len() == 0 {
        Seq::empty()
    } else {
        pair_models(pairs.drop_last()).push((model(pairs.last().0), model(pairs.last().1)))
    }
}

/// Whether `v` holds only valid text and lengths that fit their fields.
pub open spec fn plain(v: Value) -> bool
    decreases v,
{
    match v {
        Value::String(s) => s.is_text() && s.bytes().len() <= MAX_LEN,
        Value::Binary(b) => b@.len() <= MAX_LEN,
        Value::Array(items) => items@.len() <= MAX_LEN && items_plain(items@),
        Value::Mapping(pairs) => pairs@.len() <= MAX_LEN && pairs_plain(pairs@),
        Value::Ext(_, data) => data@.len() <= MAX_LEN,
        _ => true,
    }
}

pub open spec fn items_plain(items: Seq<Value>) -> bool
    decreases items,
{
    items.len() == 0 || (items_plain(items.drop_last()) && plain(items.last()))
}

pub open spec fn pairs_plain(pairs: Seq<(Value, Value)>) -> bool
    decreases pairs,
{
    pairs.len() == 0 || (pairs_plain(pairs.drop_last()) && plain(pairs.last().0) && plain(
        pairs.last().1,
    ))
}

/// The number in `w` bytes of `b` from `at`, most significant first.
pub open spec fn field(b: Seq<u8>, at: int, w: int) -> nat {
    be_value(b.subrange(at, at + w))
}

/// Whether `m` starts an integer item.
pub open spec fn is_int_marker(m: u8) -> bool {
    m < 0x80 || m >= 0xe0 || (0xcc <= m <= 0xd3)
}

/// The length of the integer item that starts with `m`.
pub open spec fn int_item_len(m: u8) -> nat {
    if m == 0xcc || m == 0xd0 {
        2
    } else if m == 0xcd || m == 0xd1 {
        3
    } else if m == 0xce || m == 0xd2 {
        5
    } else if m == 0xcf || m == 0xd3 {
        9
    } else {
        1
    }
}

/// The header of a string (kind 0), byte string (1), array (2), map (3) or extension (4) at the
/// start of `b`: its kind, its length or count, and its own length.
pub open spec fn header(b: Seq<u8>) -> Option<(int, nat, nat)> {
    if b.len() == 0 {
        None
    } else {
        let m = b[0];
        let (k, n, h): (int, nat, nat) = if 0xa0 <= m < 0xc0 {
            (0, (m - 0xa0) as nat, 1)
        } else if m == 0xd9 {
            (0, field(b, 1, 1), 2)
        } else if m == 0xda {
            (0, field(b, 1, 2), 3)
        } else if m == 0xdb {
            (0, field(b, 1, 4), 5)
        } else if m == 0xc4 {
            (1, field(b, 1, 1), 2)
        } else if m == 0xc5 {
            (1, field(b, 1, 2), 3)
        } else if m == 0xc6 {
            (1, field(b, 1, 4), 5)
        } else if 0x90 <= m < 0xa0 {
            (2, (m - 0x90) as nat, 1)
        } else if m == 0xdc {
            (2, field(b, 1, 2), 3)
        } else if m == 0xdd {
            (2, field(b, 1, 4), 5)
        } else if 0x80 <= m < 0x90 {
            (3, (m - 0x80) as nat, 1)
        } else if m == 0xde {
            (3, field(b, 1, 2), 3)
        } else if m == 0xdf {
            (3, field(b, 1, 4), 5)
        } else if m == 0xd4 {
            (4, 1, 2)
        } else if m == 0xd5 {
            (4, 2, 2)
        } else if m == 0xd6 {
            (4, 4, 2)
        } else if m == 0xd7 {
            (4, 8, 2)
        } else if m == 0xd8 {
            (4, 16, 2)
        } else if m == 0xc7 {
            (4, field(b, 1, 1), 3)
        } else if m == 0xc8 {
            (4, field(b, 1, 2), 4)
        } else if m == 0xc9 {
            (4, field(b, 1, 4), 6)
        } else {
            (-1, 0, 0)
        };
        if k < 0 || b.len() < h {
            None
        } else {
            Some((k, n, h))
        }
    }
}

/// The value at the start of `b` and how many bytes it takes.
#[verifier::opaque]
pub open spec fn decode(b: Seq<u8>) -> Option<(ValueModel, nat)>
    decreases b.len(), 0nat,
{
    if b.len() == 0 {
        None
    } else {
        let m = b[0];
        if m == 0xc0 {
            Some((ValueModel::Nil, 1))
        } else if m == 0xc2 {
            Some((ValueModel::Boolean(false), 1))
        } else if m == 0xc3 {
            Some((ValueModel::Boolean(true), 1))
        } else if m == 0xca {
            if b.len() >= 5 {
                Some((ValueModel::F32(field(b, 1, 4) as u32), 5))
            } else {
                None
            }
        } else if m == 0xcb {
            if b.len() >= 9 {
                Some((ValueModel::F64(field(b, 1, 8) as u64), 9))
            } else {
                None
            }
        } else if is_int_marker(m) {
            match decode_int(b) {
                Some(n) => Some((ValueModel::Integer(n), int_item_len(m))),
                None => None,
            }
        } else {
            match header(b) {
                None => None,
                Some((k, n, h)) => if k == 2 {
                    match decode_items(b.subrange(h as int, b.len() as int), n) {
                        Some((items, used)) => Some((ValueModel::Array(items), h + used)),
                        None => None,
                    }
                } else if k == 3 {
                    match decode_pairs(b.subrange(h as int, b.len() as int), n) {
                        Some((pairs, used)) => Some((ValueModel::Mapping(pairs), h + used)),
                        None => None,
                    }
                } else if b.len() < h + n {
                    None
                } else {
                    let p = b.subrange(h as int, (h + n) as int);
                    if k == 0 {
                        Some((ValueModel::Text(decode_utf8(p)), h + n))
                    } else if k == 1 {
                        Some((ValueModel::Binary(p), h + n))
                    } else {
                        Some((ValueModel::Ext(b[h - 1] as i8, p), h + n))
                    }
                },
            }
        }
    }
}

/// `n` values, one after another, at the start of `b`.
pub open spec fn decode_items(b: Seq<u8>, n: nat) -> Option<(Seq<ValueModel>, nat)>
    decreases b.len(), n,
{
    if n == 0 {
        Some((Seq::empty(), 0))
    } else {
        match decode(b) {
            None => None,
            Some((x, k)) => if k == 0 || k > b.len() {
                None
            } else {
                match decode_items(b.subrange(k as int, b.len() as int), (n - 1) as nat) {
                    None => None,
                    Some((xs, used)) => Some((seq![x] + xs, k + used)),
                }
            },
        }
    }
}

/// `n` key and value pairs, one after another, at the start of `b`.
pub open spec fn decode_pairs(b: Seq<u8>, n: nat) -> Option<(Seq<(ValueModel, ValueModel)>, nat)>
    decreases b.len(), n,
{
    if n == 0 {
        Some((Seq::empty(), 0))
    } else {
        match decode(b) {
            None => None,
            Some((key, k1)) => if k1 == 0 || k1 > b.len() {
                None
            } else {
                let b2 = b.subrange(k1 as int, b.len() as int);
                match decode(b2) {
                    None => None,
                    Some((val, k2)) => if k2 == 0 || k2 > b2.len() {
                        None
                    } else {
                        match decode_pairs(b2.subrange(k2 as int, b2.len() as int), (n - 1) as nat) {
                            None => None,
                            Some((ps, used)) => Some((seq![(key, val)] + ps, k1 + k2 + used)),
                        }
                    },
                }
            },
        }
    }
}

proof fn lemma_field(m: u8, x: nat, w: nat, rest: Seq<u8>)
    requires
        x < pow256(w),
    ensures
        (seq![m] + be_bytes(x, w) + rest)[0] == m,
        (seq![m] + be_bytes(x, w) + rest).len() == 1 + w + rest.len(),
        field(seq![m] + be_bytes(x, w) + rest, 1, w as int) == x,
{
    lemma_be_round_trip(x, w);
    let b = seq![m] + be_bytes(x, w) + rest;
    assert(b.subrange(1, (1 + w) as int) =~= be_bytes(x, w));
}

proof fn lemma_str_header(len: nat, rest: Seq<u8>)
    requires
        len <= MAX_LEN,
    ensures
        str_header(len).len() >= 1,
        header(str_header(len) + rest) == Some((0int, len, str_header(len).len())),
{
    reveal_with_fuel(pow256, 5);
    if 32 <= len < 0x100 {
        lemma_field(0xd9, len, 1, rest);
    } else if 0x100 <= len < 0x1_0000 {
        lemma_field(0xda, len, 2, rest);
    } else if 0x1_0000 <= len {
        lemma_field(0xdb, len, 4, rest);
    }
}

proof fn lemma_bin_header(len: nat, rest: Seq<u8>)
    requires
        len <= MAX_LEN,
    ensures
        bin_header(len).len() >= 1,
        header(bin_header(len) + rest) == Some((1int, len, bin_header(len).len())),
{
    reveal_with_fuel(pow256, 5);
    if len < 0x100 {
        lemma_field(0xc4, len, 1, rest);
    } else if len < 0x1_0000 {
        lemma_field(0xc5, len, 2, rest);
    } else {
        lemma_field(0xc6, len, 4, rest);
    }
}

proof fn lemma_array_header(len: nat, rest: Seq<u8>)
    requires
        len <= MAX_LEN,
    ensures
        array_header(len).len() >= 1,
        header(array_header(len) + rest) == Some((2int, len, array_header(len).len())),
{
    reveal_with_fuel(pow256, 5);
    if 16 <= len < 0x1_0000 {
        lemma_field(0xdc, len, 2, rest);
    } else if 0x1_0000 <= len {
        lemma_field(0xdd, len, 4, rest);
    }
}

proof fn lemma_map_header(len: nat, rest: Seq<u8>)
    requires
        len <= MAX_LEN,
    ensures
        map_header(len).len() >= 1,
        header(map_header(len) + rest) == Some((3int, len, map_header(len).len())),
{
    reveal_with_fuel(pow256, 5);
    if 16 <= len < 0x1_0000 {
        lemma_field(0xde, len, 2, rest);
    } else if 0x1_0000 <= len {
        lemma_field(0xdf, len, 4, rest);
    }
}

proof fn lemma_ext_header(len: nat, ty: i8, rest: Seq<u8>)
    requires
        len <= MAX_LEN,
    ensures
        ext_header(len, ty).len() >= 2,
        header(ext_header(len, ty) + rest) == Some((4int, len, ext_header(len, ty).len())),
        (ext_header(len, ty) + rest)[ext_header(len, ty).len() - 1] as i8 == ty,
{
    reveal_with_fuel(pow256, 5);
    let t = seq![ty as u8];
    assert((ty as u8) as i8 == ty) by (bit_vector);
    if len == 1 || len == 2 || len == 4 || len == 8 || len == 16 {
    } else if len < 0x100 {
        lemma_field(0xc7, len, 1, t + rest);
        assert(seq![0xc7u8] + be_bytes(len, 1) + t + rest =~= seq![0xc7u8] + be_bytes(len, 1) + (t
            + rest));
    } else if len < 0x1_0000 {
        lemma_field(0xc8, len, 2, t + rest);
        assert(seq![0xc8u8] + be_bytes(len, 2) + t + rest =~= seq![0xc8u8] + be_bytes(len, 2) + (t
            + rest));
    } else {
        lemma_field(0xc9, len, 4, t + rest);
        assert(seq![0xc9u8] + be_bytes(len, 4) + t + rest =~= seq![0xc9u8] + be_bytes(len, 4) + (t
            + rest));
    }
}

proof fn lemma_items_front(s: Seq<Value>)
    requires
        s.len() > 0,
    ensures
        items_encoding(s) == encoding(s[0]) + items_encoding(s.skip(1)),
        models(s) == seq![model(s[0])] + models(s.skip(1)),
        items_plain(s) ==> plain(s[0]) && items_plain(s.skip(1)),
    decreases s.len(),
{
    if s.len() > 1 {
        let t = s.drop_last();
        lemma_items_front(t);
        assert(s.skip(1).drop_last() =~= t.skip(1));
        assert(items_encoding(s) =~= encoding(s[0]) + items_encoding(s.skip(1)));
        assert(models(s) =~= seq![model(s[0])] + models(s.skip(1)));
    } else {
        assert(s.skip(1) =~= Seq::<Value>::empty());
        assert(s.drop_last() =~= Seq::<Value>::empty());
        assert(items_encoding(s) =~= encoding(s[0]) + items_encoding(s.skip(1)));
        assert(models(s) =~= seq![model(s[0])] + models(s.skip(1)));
    }
}

proof fn lemma_pairs_front(s: Seq<(Value, Value)>)
    requires
        s.len() > 0,
    ensures
        pairs_encoding(s) == encoding(s[0].0) + encoding(s[0].1) + pairs_encoding(s.skip(1)),
        pair_models(s) == seq![(model(s[0].0), model(s[0].1))] + pair_models(s.skip(1)),
        pairs_plain(s) ==> plain(s[0].0) && plain(s[0].1) && pairs_plain(s.skip(1)),
    decreases s.len(),
{
    if s.len() > 1 {
        let t = s.drop_last();
        lemma_pairs_front(t);
        assert(s.skip(1).drop_last() =~= t.skip(1));
        assert(pairs_encoding(s) =~= encoding(s[0].0) + encoding(s[0].1) + pairs_encoding(
            s.skip(1),
        ));
        assert(pair_models(s) =~= seq![(model(s[0].0), model(s[0].1))] + pair_models(s.skip(1)));
    } else {
        assert(s.skip(1) =~= Seq::<(Value, Value)>::empty());
        assert(s.drop_last() =~= Seq::<(Value, Value)>::empty());
        assert(pairs_encoding(s) =~= encoding(s[0].0) + encoding(s[0].1) + pairs_encoding(
            s.skip(1),
        ));
        assert(pair_models(s) =~= seq![(model(s[0].0), model(s[0].1))] + pair_models(s.skip(1)));
    }
}

proof fn lemma_int_round_trip_item(n: int, rest: Seq<u8>)
    requires
        -0x8000_0000_0000_0000 <= n < 0x1_0000_0000_0000_0000,
    ensures
        int_encoding(n).len() >= 1,
        decode(int_encoding(n) + rest) == Some((ValueModel::Integer(n), int_encoding(n).len())),
{
    reveal(decode);
    lemma_int_round_trip(n, rest);
    lemma_int_encoding_shortest(n);
}

proof fn lemma_float_round_trip(m: u8, x: nat, w: nat, rest: Seq<u8>)
    requires
        (m == 0xca && w == 4 && x < 0x1_0000_0000) || (m == 0xcb && w == 8 && x
            < 0x1_0000_0000_0000_0000),
    ensures
        decode(seq![m] + be_bytes(x, w) + rest) == Some(
            (
                if m == 0xca {
                    ValueModel::F32(x as u32)
                } else {
                    ValueModel::F64(x as u64)
                },
                1 + w,
            ),
        ),
{
    reveal(decode);
    reveal_with_fuel(pow256, 9);
    lemma_field(m, x, w, rest);
}

proof fn lemma_payload_round_trip(h: Seq<u8>, p: Seq<u8>, rest: Seq<u8>, k: int)
    requires
        h.len() >= 1,
        header(h + (p + rest)) == Some((k, p.len(), h.len())),
        k == 0 || k == 1 || k == 4,
        !(h[0] == 0xc0 || h[0] == 0xc2 || h[0] == 0xc3 || h[0] == 0xca || h[0] == 0xcb
            || is_int_marker(h[0])),
    ensures
        decode(h + p + rest) == Some(
            (
                if k == 0 {
                    ValueModel::Text(decode_utf8(p))
                } else if k == 1 {
                    ValueModel::Binary(p)
                } else {
                    ValueModel::Ext((h + p + rest)[h.len() - 1] as i8, p)
                },
                h.len() + p.len(),
            ),
        ),
{
    reveal(decode);
    let b = h + p + rest;
    assert(b =~= h + (p + rest));
    assert(b.subrange(h.len() as int, (h.len() + p.len()) as int) =~= p);
}

proof fn lemma_marker_round_trip(e: Seq<u8>, rest: Seq<u8>)
    requires
        e == seq![0xc0u8] || e == seq![0xc2u8] || e == seq![0xc3u8],
    ensures
        decode(e + rest) == Some(
            (
                if e[0] == 0xc0 {
                    ValueModel::Nil
                } else {
                    ValueModel::Boolean(e[0] == 0xc3)
                },
                1nat,
            ),
        ),
{
    reveal(decode);
    assert((e + rest)[0] == e[0]);
}

/// Reading back the encoding of a value that holds only valid text gives the value's model and
/// consumes exactly its encoding, whatever bytes follow.
pub proof fn lemma_round_trip(v: Value, rest: Seq<u8>)
    requires
        plain(v),
    ensures
        encoding(v).len() >= 1,
        decode(encoding(v) + rest) == Some((model(v), encoding(v).len())),
    decreases v,
{
    match v {
        Value::Integer(i) => {
            i.lemma_value_range();
            lemma_int_round_trip_item(i.value(), rest);
            assert(encoding(v) == int_encoding(i.value()));
            assert(model(v) == ValueModel::Integer(i.value()));

        },
        Value::F32(bits) => {
            lemma_float_round_trip(0xca, bits as nat, 4, rest);
            lemma_be_bytes_len(bits as nat, 4);
        },
        Value::F64(bits) => {
            lemma_float_round_trip(0xcb, bits as nat, 8, rest);
            lemma_be_bytes_len(bits as nat, 8);
        },
        Value::String(s) => {
            s.lemma_text_bytes();
            let p = s.bytes();
            lemma_str_header(p.len(), p + rest);
            lemma_payload_round_trip(str_header(p.len()), p, rest, 0);
            encode_utf8_decode_utf8(s.text());
        },
        Value::Binary(d) => {
            lemma_bin_header(d@.len(), d@ + rest);
            lemma_payload_round_trip(bin_header(d@.len()), d@, rest, 1);
        },
        Value::Ext(ty, d) => {
            lemma_ext_header(d@.len(), ty, d@ + rest);
            lemma_payload_round_trip(ext_header(d@.len(), ty), d@, rest, 4);
            assert(ext_header(d@.len(), ty) + d@ + rest =~= ext_header(d@.len(), ty) + (d@ + rest));
        },
        Value::Array(items) => {
            assert(decreases_to!(v => items));
            lemma_array_round_trip(items, rest);
        },
        Value::Mapping(pairs) => {
            assert(decreases_to!(v => pairs));
            lemma_map_round_trip(pairs, rest);
        },
        _ => {
            lemma_marker_round_trip(encoding(v), rest);
        },
    }
}

proof fn lemma_array_round_trip(items: Vec<Value>, rest: Seq<u8>)
    requires
        items@.len() <= MAX_LEN,
        items_plain(items@),
    ensures
        decode(array_header(items@.len()) + items_encoding(items@) + rest) == Some(
            (ValueModel::Array(models(items@)), (array_header(items@.len()) + items_encoding(
                items@,
            )).len()),
        ),
    decreases items, 1nat,
{
    reveal(decode);
    let body = items_encoding(items@);
    let h = array_header(items@.len());
    let b = h + body + rest;
    lemma_array_header(items@.len(), body + rest);
    assert(b =~= h + (body + rest));
    assert(b.subrange(h.len() as int, b.len() as int) =~= body + rest);
    lemma_items_round_trip(items@, rest);
}

proof fn lemma_map_round_trip(pairs: Vec<(Value, Value)>, rest: Seq<u8>)
    requires
        pairs@.len() <= MAX_LEN,
        pairs_plain(pairs@),
    ensures
        decode(map_header(pairs@.len()) + pairs_encoding(pairs@) + rest) == Some(
            (ValueModel::Mapping(pair_models(pairs@)), (map_header(pairs@.len()) + pairs_encoding(
                pairs@,
            )).len()),
        ),
    decreases pairs, 1nat,
{
    reveal(decode);
    let body = pairs_encoding(pairs@);
    let h = map_header(pairs@.len());
    let b = h + body + rest;
    lemma_map_header(pairs@.len(), body + rest);
    assert(b =~= h + (body + rest));
    assert(b.subrange(h.len() as int, b.len() as int) =~= body + rest);
    lemma_pairs_round_trip(pairs@, rest);
}

proof fn lemma_items_round_trip(s: Seq<Value>, rest: Seq<u8>)
    requires
        items_plain(s),
    ensures
        decode_items(items_encoding(s) + rest, s.len()) == Some((models(s), items_encoding(s).len())),
    decreases s,
{
    if s.len() == 0 {
        assert(items_encoding(s) + rest =~= rest);
    } else {
        lemma_items_front(s);
        let tail = s.skip(1);
        let after = items_encoding(tail) + rest;
        lemma_round_trip(s[0], after);
        let b = items_encoding(s) + rest;
        assert(b =~= encoding(s[0]) + after);
        let k = encoding(s[0]).len();
        assert(b.subrange(k as int, b.len() as int) =~= after);
        lemma_items_round_trip(tail, rest);
        reveal(decode);
    }
}

proof fn lemma_pairs_round_trip(s: Seq<(Value, Value)>, rest: Seq<u8>)
    requires
        pairs_plain(s),
    ensures
        decode_pairs(pairs_encoding(s) + rest, s.len()) == Some(
            (pair_models(s), pairs_encoding(s).len()),
        ),
    decreases s,
{
    if s.len() == 0 {
        assert(pairs_encoding(s) + rest =~= rest);
    } else {
        lemma_pairs_front(s);
        let tail = s.skip(1);
        let after = pairs_encoding(tail) + rest;
        let ek = encoding(s[0].0);
        let ev = encoding(s[0].1);
        assert(decreases_to!(s => s[0]));
        lemma_round_trip(s[0].0, ev + after);
        lemma_round_trip(s[0].1, after);
        let b = pairs_encoding(s) + rest;
        assert(b =~= ek + (ev + after));
        let b2 = b.subrange(ek.len() as int, b.len() as int);
        assert(b2 =~= ev + after);
        assert(b2.subrange(ev.len() as int, b2.len() as int) =~= after);
        lemma_pairs_round_trip(tail, rest);
        reveal(decode);
    }
}

} // verus!
